//! The skeleton shared by uniform-cost search and A*: a min-priority
//! frontier and a record of the best priority seen per state, relaxed only on
//! strict improvement. Entries made stale by a later improvement stay in the
//! frontier and are expanded when they come out.
use crate::frontier::Frontier;
use crate::traits::algorithm::sound_outcome;
use crate::traits::node::{
    child_states, expanded_into, is_path, lemma_child_linked, lemma_child_reachable,
    lemma_exhausted, lemma_path_reaches_in, lemma_root_linked, lemma_root_reachable, linked_to,
    reachable, solution_reachable, state_determined, states_reachable, Node,
};
use crate::traits::p_tuple::PTuple;
use crate::visited::Visited;
use vstd::prelude::*;

verus! {

/// The order key of a node: its cost, plus its heuristic when `informed`.
pub open spec fn priority_of<T: Node>(n: T, informed: bool) -> int {
    if informed {
        n.cost() + n.heuristic()
    } else {
        n.cost()
    }
}

/// Some pair of `q` holds a node in state `s`.
pub open spec fn queued_state<T: Node>(q: Seq<PTuple<T>>, s: u64) -> bool {
    exists|i: int| 0 <= i < q.len() && #[trigger] q[i].node.state() == s
}

/// Along every successor edge between reachable nodes the priority does
/// not decrease: non-negative action costs for uniform-cost search, a
/// consistent heuristic for A*.
pub open spec fn priority_monotone<T: Node>(root: T, informed: bool) -> bool {
    forall|p: T, i: int|
        #![trigger reachable(root, p), p.children()[i]]
        reachable(root, p) && 0 <= i < p.children().len() ==> priority_of(p, informed)
            <= priority_of(p.children()[i], informed)
}

/// Among reachable nodes, the state decides the goal test, the successors'
/// states and how much the priority grows along each successor edge.
pub open spec fn priority_determined<T: Node>(root: T, informed: bool) -> bool {
    &&& state_determined(root)
    &&& forall|a: T, b: T, i: int|
        #![trigger reachable(root, a), reachable(root, b), a.children()[i], b.children()[i]]
        reachable(root, a) && reachable(root, b) && a.state() == b.state() && 0 <= i
            < a.children().len() ==> priority_of(a.children()[i], informed) - priority_of(a, informed)
            == priority_of(b.children()[i], informed) - priority_of(b, informed)
}

/// No reachable solution has a smaller priority than `n`.
pub open spec fn least_priority_solution<T: Node>(root: T, n: T, informed: bool) -> bool {
    forall|m: T|
        #[trigger] reachable(root, m) && m.solution() ==> priority_of(n, informed) <= priority_of(
            m,
            informed,
        )
}

/// State `s` is either waiting in `q` at its recorded priority, or was
/// expanded at a priority no larger.
pub open spec fn covered<T: Node>(
    q: Seq<PTuple<T>>,
    v: Map<u64, isize>,
    d: Map<u64, T>,
    s: u64,
    informed: bool,
) -> bool {
    (exists|i: int| 0 <= i < q.len() && #[trigger] q[i].node.state() == s && q[i].priority == v[s])
        || (d.dom().contains(s) && priority_of(d[s], informed) <= v[s])
}

/// The successors of every expanded node are recorded at a priority no
/// larger than their own.
pub open spec fn children_recorded<T: Node>(d: Map<u64, T>, v: Map<u64, isize>, informed: bool) -> bool {
    forall|s: u64, i: int|
        #![trigger d.dom().contains(s), d[s].children()[i]]
        d.dom().contains(s) && 0 <= i < d[s].children().len() ==> v.contains_key(
            d[s].children()[i].state(),
        ) && v[d[s].children()[i].state()] <= priority_of(d[s].children()[i], informed)
}

/// A node in state `s` was expanded at a priority no larger than `n`'s.
pub open spec fn settled<T: Node>(d: Map<u64, T>, n: T, informed: bool) -> bool {
    d.dom().contains(n.state()) && priority_of(d[n.state()], informed) <= priority_of(n, informed)
}

/// Along a path the priority does not decrease.
pub proof fn lemma_path_monotone<T: Node>(root: T, path: Seq<T>, j: int, k: int, informed: bool)
    requires
        priority_monotone(root, informed),
        is_path(root, path),
        0 <= j <= k < path.len(),
    ensures
        priority_of(path[j], informed) <= priority_of(path[k], informed),
    decreases k - j,
{
    if j < k {
        lemma_path_monotone(root, path, j, k - 1, informed);
        lemma_path_reaches_in(root, path, k - 1);
        let p = path[k - 1];
        let h = k - 1;
        assert(path[h].children().contains(path[h + 1]));
        let i = choose|i: int| 0 <= i < p.children().len() && #[trigger] p.children()[i] == path[k];
        assert(priority_of(p, informed) <= priority_of(p.children()[i], informed));
    }
}

/// Each node of a path either is settled or has a frontier entry at a
/// priority no larger than its own.
proof fn lemma_path_covered<T: Node>(
    root: T,
    q: Seq<PTuple<T>>,
    v: Map<u64, isize>,
    d: Map<u64, T>,
    path: Seq<T>,
    k: int,
    informed: bool,
)
    requires
        priority_monotone(root, informed),
        priority_determined(root, informed),
        is_path(root, path),
        0 <= k < path.len(),
        v.contains_key(root.state()),
        v[root.state()] <= priority_of(root, informed),
        forall|s: u64| #[trigger] v.contains_key(s) ==> covered(q, v, d, s, informed),
        children_recorded(d, v, informed),
        expanded_into(root, d, v.dom()),
    ensures
        settled(d, path[k], informed) || exists|i: int|
            0 <= i < q.len() && #[trigger] q[i].priority <= priority_of(path[k], informed),
    decreases k,
{
    let n = path[k];
    lemma_path_reaches_in(root, path, k);
    if k == 0 {
        assert(covered(q, v, d, n.state(), informed));
    } else {
        let p = path[k - 1];
        lemma_path_covered(root, q, v, d, path, k - 1, informed);
        lemma_path_reaches_in(root, path, k - 1);
        let h = k - 1;
        assert(path[h].children().contains(path[h + 1]));
        let i = choose|i: int| 0 <= i < p.children().len() && #[trigger] p.children()[i] == n;
        assert(priority_of(p, informed) <= priority_of(p.children()[i], informed));
        if settled(d, p, informed) {
            let w = d[p.state()];
            assert(reachable(root, w));
            assert(child_states(p) == child_states(w));
            assert(child_states(p).len() == p.children().len());
            assert(child_states(w).len() == w.children().len());
            assert(child_states(p)[i] == n.state());
            assert(child_states(w)[i] == w.children()[i].state());
            assert(priority_of(w.children()[i], informed) - priority_of(w, informed) == priority_of(
                p.children()[i],
                informed,
            ) - priority_of(p, informed));
            assert(v.contains_key(w.children()[i].state()));
            assert(v[n.state()] <= priority_of(n, informed));
            assert(covered(q, v, d, n.state(), informed));
            if !settled(d, n, informed) {
                let j = choose|j: int|
                    0 <= j < q.len() && #[trigger] q[j].node.state() == n.state() && q[j].priority
                        == v[n.state()];
                assert(q[j].priority <= priority_of(n, informed));
            }
        } else {
            let j = choose|j: int| 0 <= j < q.len() && #[trigger] q[j].priority <= priority_of(p, informed);
            assert(q[j].priority <= priority_of(n, informed));
        }
    }
}

/// Some frontier entry has a priority no larger than any reachable solution.
proof fn lemma_frontier_bounds_solutions<T: Node>(
    root: T,
    q: Seq<PTuple<T>>,
    v: Map<u64, isize>,
    d: Map<u64, T>,
    m: T,
    informed: bool,
)
    requires
        priority_monotone(root, informed),
        priority_determined(root, informed),
        reachable(root, m),
        m.solution(),
        v.contains_key(root.state()),
        v[root.state()] <= priority_of(root, informed),
        forall|s: u64| #[trigger] v.contains_key(s) ==> covered(q, v, d, s, informed),
        children_recorded(d, v, informed),
        expanded_into(root, d, v.dom()),
    ensures
        exists|i: int| 0 <= i < q.len() && #[trigger] q[i].priority <= priority_of(m, informed),
{
    let path = choose|path: Seq<T>| #[trigger] is_path(root, path) && path.last() == m;
    lemma_path_covered(root, q, v, d, path, path.len() - 1, informed);
    if settled(d, m, informed) {
        let w = d[m.state()];
        assert(reachable(root, w));
        assert(false);
    }
}

pub fn priority<T: Node>(n: &T, informed: bool) -> (r: isize)
    ensures
        r == priority_of(*n, informed),
{
    if informed {
        n.get_cost() + n.get_heuristic()
    } else {
        n.get_cost()
    }
}

/// Runs a best-first search from `root` on fresh bookkeeping left in
/// `p_queue` and `visited`. Where priorities never decrease along edges and
/// the state determines how they grow, the node returned has the least
/// priority of all reachable solutions.
pub fn best_first<T: Node>(
    p_queue: &mut Frontier<T>,
    visited: &mut Visited,
    history: &mut Ghost<Seq<u64>>,
    root: T,
    informed: bool,
) -> (r: Option<T>)
    ensures
        sound_outcome(root, r),
        root.solution() ==> r == Some(root) && final(visited).order() == seq![root.state()],
        state_determined(root) && r is None ==> !solution_reachable(root),
        state_determined(root) && r is None ==> forall|n: T| #[trigger]
            reachable(root, n) ==> final(visited).order().contains(n.state()),
        priority_monotone(root, informed) && priority_determined(root, informed) ==> (r matches Some(
            n,
        ) ==> least_priority_solution(root, n, informed)),
        !root.solution() ==> forall|i: int|
            0 <= i < root.children().len() ==> final(visited).order().contains(
                #[trigger] root.children()[i].state(),
            ),
        forall|i: int|
            0 <= i < final(history)@.len() ==> final(visited).order().contains(
                #[trigger] final(history)@[i],
            ),
        final(visited).wf(),
        final(visited).order().len() >= 1,
        final(visited).order()[0] == root.state(),
        states_reachable(root, final(visited).order().to_set()),
{
    let ghost root_v = root;
    let ghost mut done: Map<u64, T> = Map::empty();
    *p_queue = Frontier::new();
    *visited = Visited::new();
    *history = Ghost(Seq::empty());
    let f = priority(&root, informed);
    let ghost mut last: int = f as int;
    visited.record(root.get_state(), f);
    p_queue.push(PTuple { priority: f, node: root });
    proof {
        lemma_root_reachable(root_v);
        lemma_root_linked(root_v);
        visited.lemma_measure_nonneg();
        assert(p_queue.items()[0].node.state() == root_v.state());
        assert(visited.order() =~= seq![root_v.state()]);
        assert(covered(p_queue.items(), visited.costs(), done, root_v.state(), informed));
    }
    while p_queue.len() > 0
        invariant
            root_v == root,
            forall|i: int|
                0 <= i < history@.len() ==> visited.costs().contains_key(#[trigger] history@[i]),
            forall|i: int|
                0 <= i < p_queue.items().len() ==> linked_to(root_v, #[trigger] p_queue.items()[i].node),
            visited.wf(),
            visited.measure() >= 0,
            visited.order().len() >= 1,
            visited.order()[0] == root_v.state(),
            forall|i: int|
                0 <= i < p_queue.items().len() ==> reachable(root_v, #[trigger] p_queue.items()[i].node)
                    && visited.costs().contains_key(p_queue.items()[i].node.state())
                    && p_queue.items()[i].priority == priority_of(p_queue.items()[i].node, informed),
            forall|s: u64| #[trigger]
                visited.costs().contains_key(s) ==> done.dom().contains(s) || queued_state(
                    p_queue.items(),
                    s,
                ),
            forall|s: u64| #[trigger] done.dom().contains(s) ==> visited.costs().contains_key(s),
            expanded_into(root_v, done, visited.costs().dom()),
            children_recorded(done, visited.costs(), informed),
            states_reachable(root_v, visited.costs().dom()),
            visited.costs().contains_key(root_v.state()),
            visited.costs()[root_v.state()] <= priority_of(root_v, informed),
            priority_monotone(root_v, informed) ==> forall|s: u64| #[trigger]
                visited.costs().contains_key(s) ==> covered(
                    p_queue.items(),
                    visited.costs(),
                    done,
                    s,
                    informed,
                ),
            priority_monotone(root_v, informed) ==> forall|i: int|
                0 <= i < p_queue.items().len() ==> last <= #[trigger] p_queue.items()[i].priority,
            priority_monotone(root_v, informed) ==> forall|s: u64| #[trigger]
                done.dom().contains(s) ==> priority_of(done[s], informed) <= last,
            done.dom().len() == 0 ==> p_queue.items().len() == 1 && p_queue.items()[0].node == root_v
                && visited.order() == seq![root_v.state()],
            done.dom().len() > 0 ==> done.dom().contains(root_v.state()) && !root_v.solution()
                && done[root_v.state()] == root_v,
            done.dom().finite(),
        decreases visited.measure(), p_queue.items().len(),
    {
        let ghost old_q = p_queue.items();
        let i = p_queue.min_index();
        let PTuple { priority: pr, node } = p_queue.take(i);
        let ghost x = node;
        let ghost m0 = visited.measure();
        let ghost q0 = p_queue.items().len();
        proof {
            let q = p_queue.items();
            assert(x == old_q[i as int].node);
            assert(pr == old_q[i as int].priority);
            assert forall|t: u64| #[trigger]
                visited.costs().contains_key(t) implies t == x.state() || done.dom().contains(t)
                || queued_state(q, t) by {
                if t != x.state() && !done.dom().contains(t) {
                    let j = choose|j: int| 0 <= j < old_q.len() && #[trigger] old_q[j].node.state() == t;
                    if j < i {
                        assert(q[j] == old_q[j]);
                    } else {
                        assert(j != i);
                        assert(q[j - 1] == old_q[j]);
                    }
                }
            }
            assert(linked_to(root_v, old_q[i as int].node));
            assert forall|j: int| 0 <= j < q.len() implies linked_to(root_v, #[trigger] q[j].node) by {
                if j < i {
                    assert(q[j] == old_q[j]);
                } else {
                    assert(q[j] == old_q[j + 1]);
                }
            }
            assert forall|j: int| 0 <= j < q.len() implies reachable(root_v, #[trigger] q[j].node)
                && visited.costs().contains_key(q[j].node.state()) && q[j].priority == priority_of(
                q[j].node,
                informed,
            ) by {
                if j < i {
                    assert(q[j] == old_q[j]);
                } else {
                    assert(q[j] == old_q[j + 1]);
                }
            }
            if priority_monotone(root_v, informed) {
                assert(last <= old_q[i as int].priority);
                assert forall|j: int| 0 <= j < q.len() implies pr <= #[trigger] q[j].priority by {
                    if j < i {
                        assert(q[j] == old_q[j]);
                    } else {
                        assert(q[j] == old_q[j + 1]);
                    }
                }
                assert forall|t: u64| #[trigger]
                    visited.costs().contains_key(t) implies covered(q, visited.costs(), done, t, informed)
                    || (t == x.state() && !done.dom().contains(t) && visited.costs()[t] == pr) by {
                    assert(covered(old_q, visited.costs(), done, t, informed));
                    if !(done.dom().contains(t) && priority_of(done[t], informed) <= visited.costs()[t]) {
                        let j = choose|j: int|
                            0 <= j < old_q.len() && #[trigger] old_q[j].node.state() == t
                                && old_q[j].priority == visited.costs()[t];
                        if j < i {
                            assert(q[j] == old_q[j]);
                        } else if j > i {
                            assert(q[j - 1] == old_q[j]);
                        } else {
                            if done.dom().contains(t) {
                                assert(priority_of(done[t], informed) <= last);
                            }
                        }
                    }
                }
            }
            last = pr as int;
        }
        if node.is_solution() {
            proof {
                visited.lemma_order_set();
                assert(reachable(root_v, node));
                assert(sound_outcome(root_v, Some(node)));
                if priority_monotone(root_v, informed) && priority_determined(root_v, informed) {
                    assert forall|m: T| #[trigger]
                        reachable(root_v, m) && m.solution() implies priority_of(node, informed)
                        <= priority_of(m, informed) by {
                        lemma_frontier_bounds_solutions(
                            root_v,
                            old_q,
                            visited.costs(),
                            done,
                            m,
                            informed,
                        );
                        let j = choose|j: int|
                            0 <= j < old_q.len() && #[trigger] old_q[j].priority <= priority_of(
                                m,
                                informed,
                            );
                        assert(old_q[i as int].priority <= old_q[j].priority);
                    }
                }
            }
            return Some(node);
        }
        *history = Ghost(history@.push(x.state()));
        let mut children = node.get_descendants();
        let ghost kids = children@;
        let ghost mut k: int = 0;
        while children.len() > 0
            invariant
                root_v == root,
                forall|i: int|
                    0 <= i < history@.len() ==> visited.costs().contains_key(#[trigger] history@[i]),
                forall|i: int|
                    0 <= i < p_queue.items().len() ==> linked_to(root_v, #[trigger] p_queue.items()[i].node),
                    linked_to(root_v, x),
                forall|j: int|
                    0 <= j < kids.len() ==> (#[trigger] kids[j].parent() matches Some(q) && *q == x),
                0 <= k <= kids.len(),
                children@ == kids.subrange(k, kids.len() as int),
                kids == x.children(),
                reachable(root_v, x),
                !x.solution(),
                pr == priority_of(x, informed),
                last == pr,
                visited.wf(),
                visited.measure() >= 0,
                visited.measure() <= m0,
                visited.measure() == m0 ==> p_queue.items().len() <= q0,
                visited.order().len() >= 1,
                visited.order()[0] == root_v.state(),
                visited.costs().contains_key(x.state()),
                forall|j: int|
                    0 <= j < k ==> visited.costs().contains_key(#[trigger] kids[j].state())
                        && visited.costs()[kids[j].state()] <= priority_of(kids[j], informed),
                forall|i: int|
                    0 <= i < p_queue.items().len() ==> reachable(
                        root_v,
                        #[trigger] p_queue.items()[i].node,
                    ) && visited.costs().contains_key(p_queue.items()[i].node.state())
                        && p_queue.items()[i].priority == priority_of(p_queue.items()[i].node, informed),
                forall|s: u64| #[trigger]
                    visited.costs().contains_key(s) ==> s == x.state() || done.dom().contains(s)
                        || queued_state(p_queue.items(), s),
                forall|s: u64| #[trigger] done.dom().contains(s) ==> visited.costs().contains_key(s),
                expanded_into(root_v, done, visited.costs().dom()),
                children_recorded(done, visited.costs(), informed),
                states_reachable(root_v, visited.costs().dom()),
                visited.costs().contains_key(root_v.state()),
                visited.costs()[root_v.state()] <= priority_of(root_v, informed),
                priority_monotone(root_v, informed) ==> forall|s: u64| #[trigger]
                    visited.costs().contains_key(s) ==> covered(
                        p_queue.items(),
                        visited.costs(),
                        done,
                        s,
                        informed,
                    ) || (s == x.state() && !done.dom().contains(s) && visited.costs()[s] == pr),
                priority_monotone(root_v, informed) ==> forall|i: int|
                    0 <= i < p_queue.items().len() ==> last <= #[trigger] p_queue.items()[i].priority,
                priority_monotone(root_v, informed) ==> forall|s: u64| #[trigger]
                    done.dom().contains(s) ==> priority_of(done[s], informed) <= last,
                done.dom().len() > 0 ==> done.dom().contains(root_v.state()) && !root_v.solution()
                && done[root_v.state()] == root_v,
                done.dom().len() == 0 ==> x == root_v,
                done.dom().finite(),
            decreases children@.len(),
        {
            let child = children.remove(0);
            proof {
                assert(child == kids[k]);
                lemma_child_reachable(root_v, x, k);
            }
            let s = child.get_state();
            let f = priority(&child, informed);
            let improves = match visited.get(s) {
                Some(c) => f < c,
                None => true,
            };
            if improves {
                let ghost pre = p_queue.items();
                let ghost pre_v = visited.costs();
                visited.record(s, f);
                p_queue.push(PTuple { priority: f, node: child });
                proof {
                    visited.lemma_measure_nonneg();
                    let q = p_queue.items();
                    let v = visited.costs();
                    assert(q[q.len() - 1].node == kids[k]);
                    lemma_child_linked(root_v, x, kids[k]);
                    assert forall|j: int| 0 <= j < q.len() implies linked_to(root_v, #[trigger] q[j].node) by {
                        if j < q.len() - 1 {
                            assert(q[j] == pre[j]);
                        }
                    }
                    assert(queued_state(q, s));
                    assert forall|t: u64| #[trigger]
                        v.contains_key(t) implies t == x.state() || done.dom().contains(t)
                        || queued_state(q, t) by {
                        if t != s && !done.dom().contains(t) && t != x.state() {
                            let j = choose|j: int| 0 <= j < pre.len() && #[trigger] pre[j].node.state() == t;
                            assert(q[j] == pre[j]);
                        }
                    }
                    assert forall|t: u64| #[trigger]
                        v.dom().contains(t) implies exists|n: T|
                        #[trigger] reachable(root_v, n) && n.state() == t by {
                        if t == s {
                            assert(reachable(root_v, kids[k]) && kids[k].state() == t);
                        }
                    }
                    assert forall|t: u64| #[trigger] pre_v.contains_key(t) implies v[t] <= pre_v[t] by {}
                    assert forall|t: u64, j: int|
                        #![trigger done.dom().contains(t), done[t].children()[j]]
                        done.dom().contains(t) && 0 <= j < done[t].children().len() implies v.contains_key(
                            done[t].children()[j].state(),
                        ) && v[done[t].children()[j].state()] <= priority_of(done[t].children()[j], informed) by {
                        assert(pre_v.contains_key(done[t].children()[j].state()));
                    }
                    assert forall|j: int|
                        0 <= j <= k implies v.contains_key(#[trigger] kids[j].state())
                        && v[kids[j].state()] <= priority_of(kids[j], informed) by {
                        if j < k {
                            assert(pre_v.contains_key(kids[j].state()));
                        }
                    }
                    if priority_monotone(root_v, informed) {
                        assert(pr <= f);
                        assert forall|j: int| 0 <= j < q.len() implies last <= #[trigger] q[j].priority by {
                            if j < q.len() - 1 {
                                assert(q[j] == pre[j]);
                            }
                        }
                        assert forall|t: u64| #[trigger]
                            v.contains_key(t) implies covered(q, v, done, t, informed) || (t == x.state()
                            && !done.dom().contains(t) && v[t] == pr) by {
                            if t == s {
                                assert(q[q.len() - 1].node.state() == t && q[q.len() - 1].priority == v[t]);
                            } else {
                                assert(pre_v.contains_key(t));
                                if !(done.dom().contains(t) && priority_of(done[t], informed) <= pre_v[t])
                                    && !(t == x.state() && !done.dom().contains(t) && pre_v[t] == pr) {
                                    let j = choose|j: int|
                                        0 <= j < pre.len() && #[trigger] pre[j].node.state() == t
                                            && pre[j].priority == pre_v[t];
                                    assert(q[j] == pre[j]);
                                }
                            }
                        }
                    }
                }
            } else {
                proof {
                    assert(visited.costs().contains_key(kids[k].state()));
                }
            }
            proof {
                k = k + 1;
            }
        }
        proof {
            assert(kids.subrange(k, kids.len() as int).len() == 0);
            if !done.dom().contains(x.state()) {
                let old_done = done;
                done = done.insert(x.state(), x);
                assert forall|i: int| 0 <= i < x.children().len() implies visited.costs().dom().contains(
                    #[trigger] x.children()[i].state(),
                ) by {
                    assert(visited.costs().contains_key(kids[i].state()));
                }
                assert forall|t: u64, j: int|
                    #![trigger done.dom().contains(t), done[t].children()[j]]
                    done.dom().contains(t) && 0 <= j < done[t].children().len() implies visited.costs().contains_key(
                        done[t].children()[j].state(),
                    ) && visited.costs()[done[t].children()[j].state()] <= priority_of(
                        done[t].children()[j],
                        informed,
                    ) by {
                    if t == x.state() {
                        assert(done[t].children()[j] == kids[j]);
                    } else {
                        assert(old_done.dom().contains(t));
                    }
                }
                if priority_monotone(root_v, informed) {
                    assert forall|t: u64| #[trigger]
                        visited.costs().contains_key(t) implies covered(
                        p_queue.items(),
                        visited.costs(),
                        done,
                        t,
                        informed,
                    ) by {
                        if t != x.state() {
                            if old_done.dom().contains(t) && priority_of(old_done[t], informed)
                                <= visited.costs()[t] {
                            } else {
                                let j = choose|j: int|
                                    0 <= j < p_queue.items().len()
                                        && #[trigger] p_queue.items()[j].node.state() == t
                                        && p_queue.items()[j].priority == visited.costs()[t];
                            }
                        }
                    }
                }
            }
        }
    }
    proof {
        visited.lemma_order_set();
        assert(done.dom().len() > 0);
        assert(done.dom() =~= visited.costs().dom());
        if state_determined(root_v) {
            lemma_exhausted(root_v, done);
        }
    }
    None
}

} // verus!
