//! A ready-made search problem: walks through an explicit weighted directed
//! graph held in memory.
use crate::traits::node::Node;
use std::rc::Rc;
use vstd::prelude::*;

verus! {

/// A weighted directed graph over vertices `0..edges.len()`.
pub struct Graph {
    /// `edges[v]` lists the `(target, weight)` pairs leaving `v`.
    pub edges: Vec<Vec<(u64, isize)>>,
    /// The goal vertices.
    pub goals: Vec<u64>,
    /// `estimates[v]` is the heuristic estimate at `v`; missing entries are 0.
    pub estimates: Vec<isize>,
}

/// A walk through a `Graph` from a start vertex, ending at `vertex`.
///
/// Costs are `isize`. An edge whose weight would carry the walk's cost
/// outside `isize` is not followed: `get_descendants` leaves that successor
/// out rather than wrap or abort. The heuristic is the vertex's estimate,
/// cut down where needed so that cost plus heuristic stays within `isize`;
/// below that limit it is the estimate unchanged.
pub struct GraphNode {
    vertex: u64,
    action: Option<u64>,
    parent: Option<Rc<GraphNode>>,
    cost: isize,
    graph: Rc<Graph>,
}

/// The edges leaving `v`; none for a vertex outside the graph.
pub open spec fn out_edges(g: Graph, v: u64) -> Seq<(u64, isize)> {
    if v < g.edges@.len() {
        g.edges@[v as int]@
    } else {
        Seq::empty()
    }
}

/// The estimate recorded for `v`, or 0.
pub open spec fn estimate(g: Graph, v: u64) -> int {
    if v < g.estimates@.len() {
        g.estimates@[v as int] as int
    } else {
        0
    }
}

/// Following edge `e` from `p` costs an amount that fits in `isize`.
pub open spec fn fits(p: GraphNode, e: (u64, isize)) -> bool {
    isize::MIN <= p.cost_spec() + e.1 <= isize::MAX
}

/// `c` is the walk `p` extended by edge `e`.
pub open spec fn extends(c: GraphNode, p: GraphNode, e: (u64, isize)) -> bool {
    &&& c.vertex_spec() == e.0
    &&& c.action_spec() == Some(e.0)
    &&& c.cost_spec() == p.cost_spec() + e.1
    &&& c.parent_spec() matches Some(q) && *q == p
    &&& c.graph_spec() == p.graph_spec()
}

/// `s` extends `p` by each edge of `edges` in turn, leaving out the edges
/// whose cost would overflow.
pub open spec fn successor_list(p: GraphNode, edges: Seq<(u64, isize)>, s: Seq<GraphNode>) -> bool
    decreases edges.len(),
{
    if edges.len() == 0 {
        s.len() == 0
    } else if fits(p, edges.last()) {
        &&& s.len() > 0
        &&& extends(s.last(), p, edges.last())
        &&& successor_list(p, edges.drop_last(), s.drop_last())
    } else {
        successor_list(p, edges.drop_last(), s)
    }
}

impl GraphNode {
    pub closed spec fn vertex_spec(&self) -> u64 {
        self.vertex
    }

    pub closed spec fn cost_spec(&self) -> int {
        self.cost as int
    }

    pub closed spec fn action_spec(&self) -> Option<u64> {
        self.action
    }

    pub closed spec fn parent_spec(&self) -> Option<Rc<GraphNode>> {
        self.parent
    }

    pub closed spec fn graph_spec(&self) -> Graph {
        *self.graph
    }

    /// The walk of length zero at `start`.
    pub fn root(graph: Rc<Graph>, start: u64) -> (r: GraphNode)
        ensures
            r.vertex_spec() == start,
            r.cost_spec() == 0,
            r.action_spec() is None,
            r.parent_spec() is None,
            r.graph_spec() == *graph,
    {
        GraphNode { vertex: start, action: None, parent: None, cost: 0, graph: graph }
    }
}

/// Relies on `Rc::clone`: the new pointer shares the allocation of `rc`, so
/// it stands for the same value.
#[verifier::external_body]
fn share<T>(rc: &Rc<T>) -> (r: Rc<T>)
    ensures
        r == *rc,
{
    rc.clone()
}

proof fn lemma_successor_list_unique(p: GraphNode, edges: Seq<(u64, isize)>, a: Seq<GraphNode>, b: Seq<GraphNode>)
    requires
        successor_list(p, edges, a),
        successor_list(p, edges, b),
    ensures
        a == b,
    decreases edges.len(),
{
    if edges.len() > 0 {
        if fits(p, edges.last()) {
            lemma_successor_list_unique(p, edges.drop_last(), a.drop_last(), b.drop_last());
            assert(a.last() == b.last());
            assert(a =~= a.drop_last().push(a.last()));
            assert(b =~= b.drop_last().push(b.last()));
        } else {
            lemma_successor_list_unique(p, edges.drop_last(), a, b);
        }
    }
}

proof fn lemma_successor_parents(p: GraphNode, edges: Seq<(u64, isize)>, s: Seq<GraphNode>)
    requires
        successor_list(p, edges, s),
    ensures
        forall|i: int| 0 <= i < s.len() ==> (#[trigger] s[i].parent_spec() matches Some(q) && *q == p),
    decreases edges.len(),
{
    if edges.len() > 0 {
        if fits(p, edges.last()) {
            lemma_successor_parents(p, edges.drop_last(), s.drop_last());
            assert forall|i: int| 0 <= i < s.len() implies (#[trigger] s[i].parent_spec() matches Some(
                q,
            ) && *q == p) by {
                if i < s.len() - 1 {
                    assert(s[i] == s.drop_last()[i]);
                }
            }
        } else {
            lemma_successor_parents(p, edges.drop_last(), s);
        }
    }
}

impl Node for GraphNode {
    type Action = u64;

    open spec fn state(&self) -> u64 {
        self.vertex_spec()
    }

    open spec fn cost(&self) -> int {
        self.cost_spec()
    }

    /// The vertex's estimate, cut down where needed so that cost plus
    /// estimate stays within `isize`.
    open spec fn heuristic(&self) -> int {
        let e = estimate(self.graph_spec(), self.vertex_spec());
        if self.cost_spec() + e > isize::MAX {
            isize::MAX - self.cost_spec()
        } else if self.cost_spec() + e < isize::MIN {
            isize::MIN - self.cost_spec()
        } else {
            e
        }
    }

    open spec fn solution(&self) -> bool {
        self.graph_spec().goals@.contains(self.vertex_spec())
    }

    open spec fn action(&self) -> Option<u64> {
        self.action_spec()
    }

    open spec fn parent(&self) -> Option<Rc<GraphNode>> {
        self.parent_spec()
    }

    open spec fn children(&self) -> Seq<GraphNode> {
        choose|s: Seq<GraphNode>|
            successor_list(*self, out_edges(self.graph_spec(), self.vertex_spec()), s)
    }

    fn get_descendants(self) -> (r: Vec<GraphNode>) {
        let ghost p = self;
        let this = Rc::new(self);
        let mut r: Vec<GraphNode> = Vec::new();
        let v = this.vertex;
        let g = share(&this.graph);
        if (v as usize) < g.edges.len() && v <= usize::MAX as u64 {
            let out = &g.edges[v as usize];
            let mut i: usize = 0;
            while i < out.len()
                invariant
                    *this == p,
                    *g == p.graph_spec(),
                    out@ == out_edges(p.graph_spec(), p.vertex_spec()),
                    i <= out@.len(),
                    successor_list(p, out@.subrange(0, i as int), r@),
                decreases out@.len() - i,
            {
                let (to, weight) = out[i];
                let ghost prev = out@.subrange(0, i as int);
                let ghost next = out@.subrange(0, i as int + 1);
                assert(next.drop_last() == prev);
                assert(next.last() == (to, weight));
                match this.cost.checked_add(weight) {
                    Some(c) => {
                        let child = GraphNode {
                            vertex: to,
                            action: Some(to),
                            parent: Some(share(&this)),
                            cost: c,
                            graph: share(&this.graph),
                        };
                        let ghost before = r@;
                        r.push(child);
                        assert(r@.drop_last() == before);
                    },
                    None => {},
                }
                i += 1;
            }
            assert(out@.subrange(0, out@.len() as int) == out@);
        }
        proof {
            lemma_successor_list_unique(
                p,
                out_edges(p.graph_spec(), p.vertex_spec()),
                r@,
                p.children(),
            );
            lemma_successor_parents(p, out_edges(p.graph_spec(), p.vertex_spec()), r@);
        }
        r
    }

    fn get_state(&self) -> (r: u64) {
        self.vertex
    }

    fn get_action(&self) -> Option<u64> {
        self.action
    }

    fn get_parent(&self) -> Option<Rc<GraphNode>> {
        match &self.parent {
            Some(p) => Some(share(p)),
            None => None,
        }
    }

    fn get_cost(&self) -> (r: isize) {
        self.cost
    }

    fn get_heuristic(&self) -> (r: isize) {
        let v = self.vertex;
        let e: isize = if (v as usize) < self.graph.estimates.len() && v <= usize::MAX as u64 {
            self.graph.estimates[v as usize]
        } else {
            0
        };
        match self.cost.checked_add(e) {
            Some(_) => e,
            None => if e > 0 {
                isize::MAX - self.cost
            } else {
                isize::MIN - self.cost
            },
        }
    }

    fn is_solution(&self) -> (r: bool) {
        let goals = &self.graph.goals;
        let mut i: usize = 0;
        while i < goals.len()
            invariant
                goals@ == self.graph_spec().goals@,
                i <= goals@.len(),
                forall|j: int| 0 <= j < i ==> goals@[j] != self.vertex,
            decreases goals@.len() - i,
        {
            if goals[i] == self.vertex {
                assert(goals@[i as int] == self.vertex);
                return true;
            }
            i += 1;
        }
        false
    }
}

} // verus!
