use std::rc::Rc;
use vstd::prelude::*;

verus! {

/// One point of the search tree: a state reached along one particular path.
///
/// A state is identified by a 64-bit key; many nodes may share a state.
pub trait Node: Sized {
    type Action;

    /// The key of the state this node stands in.
    spec fn state(&self) -> u64;

    /// The accumulated path cost from the root.
    spec fn cost(&self) -> int;

    /// The estimate of the remaining cost to a solution.
    spec fn heuristic(&self) -> int;

    /// Whether this node satisfies the goal test.
    spec fn solution(&self) -> bool;

    /// The successors of this node, in the order they are generated.
    spec fn children(&self) -> Seq<Self>;

    /// The action that produced this node from its parent; none at a root.
    spec fn action(&self) -> Option<Self::Action>;

    /// The node this one was generated from, if any.
    spec fn parent(&self) -> Option<Rc<Self>>;

    /// Consumes the node and produces its successors, each of which has
    /// this node as its parent.
    fn get_descendants(self) -> (r: Vec<Self>)
        ensures
            r@ == self.children(),
            forall|i: int|
                0 <= i < r@.len() ==> (#[trigger] r@[i].parent() matches Some(p) && *p == self),
    ;

    fn get_state(&self) -> (r: u64)
        ensures
            r == self.state(),
    ;

    fn get_action(&self) -> (r: Option<Self::Action>)
        ensures
            r == self.action(),
    ;

    fn get_parent(&self) -> (r: Option<Rc<Self>>)
        ensures
            r == self.parent(),
    ;

    fn get_cost(&self) -> (r: isize)
        ensures
            r == self.cost(),
    ;

    /// The heuristic estimate; it must be small enough for `cost + heuristic`
    /// to stay within `isize`.
    fn get_heuristic(&self) -> (r: isize)
        ensures
            r == self.heuristic(),
            isize::MIN <= self.cost() + r <= isize::MAX,
    ;

    fn is_solution(&self) -> (r: bool)
        ensures
            r == self.solution(),
    ;
}

/// `path` starts at `root` and each further node is a successor of the one
/// before it.
pub open spec fn is_path<T: Node>(root: T, path: Seq<T>) -> bool {
    &&& path.len() >= 1
    &&& path[0] == root
    &&& forall|i: int| 0 <= i < path.len() - 1 ==> #[trigger] path[i].children().contains(path[i + 1])
}

/// `n` is obtained from `root` by some number of expansions.
pub open spec fn reachable<T: Node>(root: T, n: T) -> bool {
    exists|path: Seq<T>| #[trigger] is_path(root, path) && path.last() == n
}

/// `n` is obtained from `root` by exactly `d` expansions.
pub open spec fn reaches_in<T: Node>(root: T, n: T, d: int) -> bool {
    exists|path: Seq<T>| #[trigger] is_path(root, path) && path.last() == n && path.len() == d + 1
}

/// Following parent links `d` times from `n` leads to `root`.
pub open spec fn parent_chain<T: Node>(root: T, n: T, d: int) -> bool
    decreases d,
{
    if d <= 0 {
        n == root
    } else {
        n.parent() matches Some(p) && parent_chain(root, *p, d - 1)
    }
}

/// Following parent links from `n` leads back to `root`.
pub open spec fn linked_to<T: Node>(root: T, n: T) -> bool {
    exists|d: int| #[trigger] parent_chain(root, n, d)
}

/// Some node reachable from `root` is a solution.
pub open spec fn solution_reachable<T: Node>(root: T) -> bool {
    exists|n: T| #[trigger] reachable(root, n) && n.solution()
}

/// The states of a node's successors, in order.
pub open spec fn child_states<T: Node>(n: T) -> Seq<u64> {
    n.children().map_values(|c: T| c.state())
}

/// Among the nodes reachable from `root`, the state alone decides the goal
/// test and the states of the successors. Deduplicating by state is only
/// lossless under this condition.
pub open spec fn state_determined<T: Node>(root: T) -> bool {
    forall|a: T, b: T|
        #![trigger reachable(root, a), reachable(root, b)]
        reachable(root, a) && reachable(root, b) && a.state() == b.state() ==> a.solution()
            == b.solution() && child_states(a) == child_states(b)
}

/// Each state of `done` maps to a reachable node in that state that is not a
/// solution and whose successors' states all lie in `seen`.
pub open spec fn expanded_into<T: Node>(root: T, done: Map<u64, T>, seen: Set<u64>) -> bool {
    forall|s: u64|
        #[trigger] done.dom().contains(s) ==> {
            let w = done[s];
            &&& w.state() == s
            &&& reachable(root, w)
            &&& !w.solution()
            &&& forall|i: int|
                0 <= i < w.children().len() ==> seen.contains(#[trigger] w.children()[i].state())
        }
}

/// Every state of `seen` is the state of some node reachable from `root`.
pub open spec fn states_reachable<T: Node>(root: T, seen: Set<u64>) -> bool {
    forall|s: u64|
        #[trigger] seen.contains(s) ==> exists|n: T| #[trigger] reachable(root, n) && n.state() == s
}

/// The root is reachable from itself.
pub proof fn lemma_root_reachable<T: Node>(root: T)
    ensures
        reachable(root, root),
{
    assert(is_path(root, seq![root]));
}

/// A node whose parent leads back to `root` leads back to `root` itself.
pub proof fn lemma_child_linked<T: Node>(root: T, p: T, c: T)
    requires
        linked_to(root, p),
        c.parent() matches Some(q) && *q == p,
    ensures
        linked_to(root, c),
{
    let d = choose|d: int| #[trigger] parent_chain(root, p, d);
    if d <= 0 {
        assert(parent_chain(root, p, 0));
        assert(parent_chain(root, c, 1));
    } else {
        assert(parent_chain(root, c, d + 1));
    }
}

/// The node behind `n`'s parent link.
pub open spec fn parent_node<T: Node>(n: T) -> T
    recommends
        n.parent() is Some,
{
    *n.parent()->0
}

proof fn lemma_chain_trans<T: Node>(a: T, b: T, c: T, d1: int, d2: int)
    requires
        d1 >= 0,
        d2 >= 0,
        parent_chain(a, b, d1),
        parent_chain(b, c, d2),
    ensures
        parent_chain(a, c, d1 + d2),
    decreases d2,
{
    if d2 > 0 {
        lemma_chain_trans(a, b, parent_node(c), d1, d2 - 1);
    }
}

/// Parent links compose: if `c` leads back to `b` and `b` to `a`, then `c`
/// leads back to `a`.
pub proof fn lemma_linked_trans<T: Node>(a: T, b: T, c: T)
    requires
        linked_to(a, b),
        linked_to(b, c),
    ensures
        linked_to(a, c),
{
    let d1 = choose|d: int| #[trigger] parent_chain(a, b, d);
    let d2 = choose|d: int| #[trigger] parent_chain(b, c, d);
    let e1 = if d1 < 0 { 0 } else { d1 };
    let e2 = if d2 < 0 { 0 } else { d2 };
    assert(parent_chain(a, b, e1));
    assert(parent_chain(b, c, e2));
    lemma_chain_trans(a, b, c, e1, e2);
}

/// The root leads back to itself.
pub proof fn lemma_root_linked<T: Node>(root: T)
    ensures
        linked_to(root, root),
{
    assert(parent_chain(root, root, 0));
}

/// A successor of a node reached in `d` expansions is reached in `d + 1`.
pub proof fn lemma_child_reaches_in<T: Node>(root: T, p: T, d: int, i: int)
    requires
        reaches_in(root, p, d),
        0 <= i < p.children().len(),
    ensures
        reaches_in(root, p.children()[i], d + 1),
        reachable(root, p.children()[i]),
{
    let path = choose|path: Seq<T>| #[trigger] is_path(root, path) && path.last() == p && path.len() == d + 1;
    let c = p.children()[i];
    assert(p.children().contains(c));
    let longer = path.push(c);
    assert forall|j: int| 0 <= j < longer.len() - 1 implies #[trigger] longer[j].children().contains(
        longer[j + 1],
    ) by {
        if j < path.len() - 1 {
            assert(path[j].children().contains(path[j + 1]));
        }
    }
    assert(is_path(root, longer));
}

/// Every node of a path is reached from the root in as many expansions as
/// its position.
pub proof fn lemma_path_reaches_in<T: Node>(root: T, path: Seq<T>, k: int)
    requires
        is_path(root, path),
        0 <= k < path.len(),
    ensures
        reaches_in(root, path[k], k),
        reachable(root, path[k]),
{
    let prefix = path.subrange(0, k + 1);
    assert forall|j: int| 0 <= j < prefix.len() - 1 implies #[trigger] prefix[j].children().contains(
        prefix[j + 1],
    ) by {
        assert(prefix[j] == path[j] && prefix[j + 1] == path[j + 1]);
        assert(path[j].children().contains(path[j + 1]));
    }
    assert(is_path(root, prefix));
    assert(prefix.last() == path[k]);
}

/// A successor of a reachable node is reachable.
pub proof fn lemma_child_reachable<T: Node>(root: T, p: T, i: int)
    requires
        reachable(root, p),
        0 <= i < p.children().len(),
    ensures
        reachable(root, p.children()[i]),
{
    let path = choose|path: Seq<T>| #[trigger] is_path(root, path) && path.last() == p;
    lemma_child_reaches_in(root, p, path.len() - 1, i);
}

/// Reachability is transitive.
pub proof fn lemma_reachable_trans<T: Node>(a: T, b: T, c: T)
    requires
        reachable(a, b),
        reachable(b, c),
    ensures
        reachable(a, c),
{
    let p1 = choose|path: Seq<T>| #[trigger] is_path(a, path) && path.last() == b;
    let p2 = choose|path: Seq<T>| #[trigger] is_path(b, path) && path.last() == c;
    let p = p1 + p2.subrange(1, p2.len() as int);
    let n1 = p1.len();
    assert forall|j: int| 0 <= j < p.len() - 1 implies #[trigger] p[j].children().contains(
        p[j + 1],
    ) by {
        if j < n1 - 1 {
            assert(p1[j].children().contains(p1[j + 1]));
        } else if j == n1 - 1 {
            assert(p[j] == p2[0]);
            assert(p[j + 1] == p2[1]);
            let z: int = 0;
            assert(p2[z].children().contains(p2[z + 1]));
        } else {
            let h = j - n1 + 1;
            assert(p[j] == p2[h]);
            assert(p[j + 1] == p2[h + 1]);
            assert(p2[h].children().contains(p2[h + 1]));
        }
    }
    assert(is_path(a, p));
    if p2.len() == 1 {
        assert(p =~= p1);
    }
}

proof fn lemma_path_expanded<T: Node>(root: T, done: Map<u64, T>, path: Seq<T>)
    requires
        state_determined(root),
        done.dom().contains(root.state()),
        expanded_into(root, done, done.dom()),
        is_path(root, path),
    ensures
        done.dom().contains(path.last().state()),
        !path.last().solution(),
    decreases path.len(),
{
    let n = path.last();
    assert(reachable(root, n));
    if path.len() > 1 {
        let prefix = path.drop_last();
        assert(prefix.len() == path.len() - 1);
        assert forall|j: int| 0 <= j < prefix.len() - 1 implies #[trigger] prefix[j].children().contains(
            prefix[j + 1],
        ) by {
            assert(prefix[j] == path[j] && prefix[j + 1] == path[j + 1]);
            assert(path[j].children().contains(path[j + 1]));
        }
        assert(is_path(root, prefix));
        lemma_path_expanded(root, done, prefix);
        let p = prefix.last();
        assert(reachable(root, p));
        assert(p.children().contains(n)) by {
            let k = path.len() - 2;
            assert(path[k].children().contains(path[k + 1]));
        }
        assert(done.dom().contains(p.state()));
        let w = done[p.state()];
        assert(reachable(root, w));
        assert(child_states(p) == child_states(w));
        let i = choose|i: int| 0 <= i < p.children().len() && p.children()[i] == n;
        assert(child_states(p)[i] == n.state());
        assert(child_states(p).len() == p.children().len());
        assert(child_states(w).len() == w.children().len());
        assert(0 <= i < w.children().len());
        assert(child_states(w)[i] == w.children()[i].state());
        assert(done.dom().contains(n.state()));
    }
    let w2 = done[n.state()];
    assert(reachable(root, w2));
}

/// When a set of expanded states contains the root's state and is closed
/// under taking successors, no solution is reachable at all.
pub proof fn lemma_exhausted<T: Node>(root: T, done: Map<u64, T>)
    requires
        state_determined(root),
        done.dom().contains(root.state()),
        expanded_into(root, done, done.dom()),
    ensures
        !solution_reachable(root),
        forall|n: T| #[trigger] reachable(root, n) ==> done.dom().contains(n.state()),
{
    assert forall|n: T| #[trigger] reachable(root, n) implies !n.solution() && done.dom().contains(
        n.state(),
    ) by {
        let path = choose|path: Seq<T>| #[trigger] is_path(root, path) && path.last() == n;
        lemma_path_expanded(root, done, path);
    }
}

} // verus!
