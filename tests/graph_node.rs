use search::dijkstra::Dijkstra;
use search::graph::{Graph, GraphNode};
use search::traits::algorithm::Algorithm;
use search::traits::node::Node;
use std::rc::Rc;

fn line_graph() -> Rc<Graph> {
    Rc::new(Graph {
        edges: vec![vec![(1, 3), (2, 4)], vec![(2, 1)], vec![]],
        goals: vec![2],
        estimates: vec![5, 1],
    })
}

#[test]
fn root_has_no_parent_or_action() {
    let root = GraphNode::root(line_graph(), 0);
    assert_eq!(root.get_state(), 0);
    assert_eq!(root.get_cost(), 0);
    assert!(root.get_action().is_none());
    assert!(root.get_parent().is_none());
    assert!(!root.is_solution());
    assert_eq!(root.get_heuristic(), 5);
}

#[test]
fn descendants_follow_edges_in_order() {
    let kids = GraphNode::root(line_graph(), 0).get_descendants();
    assert_eq!(kids.len(), 2);
    assert_eq!(kids[0].get_state(), 1);
    assert_eq!(kids[0].get_cost(), 3);
    assert_eq!(kids[0].get_action(), Some(1));
    assert_eq!(kids[0].get_parent().unwrap().get_state(), 0);
    assert_eq!(kids[1].get_state(), 2);
    assert_eq!(kids[1].get_cost(), 4);
    assert!(kids[1].is_solution());
    // No estimate is given for vertex 2.
    assert_eq!(kids[1].get_heuristic(), 0);
}

#[test]
fn vertex_outside_graph_has_no_edges() {
    let outside = GraphNode::root(line_graph(), 9);
    assert!(!outside.is_solution());
    assert_eq!(outside.get_heuristic(), 0);
    assert!(outside.get_descendants().is_empty());
}

#[test]
fn edge_that_would_overflow_is_not_followed() {
    let g = Rc::new(Graph {
        edges: vec![vec![(1, isize::MAX)], vec![(2, 1), (0, -1)], vec![]],
        goals: vec![2],
        estimates: vec![],
    });
    let kids = GraphNode::root(g, 0).get_descendants();
    assert_eq!(kids[0].get_cost(), isize::MAX);
    let grandkids = kids.into_iter().next().unwrap().get_descendants();
    assert_eq!(grandkids.len(), 1);
    assert_eq!(grandkids[0].get_state(), 0);
    assert_eq!(grandkids[0].get_cost(), isize::MAX - 1);
}

#[test]
fn estimate_is_cut_to_keep_sum_in_range() {
    let g = Rc::new(Graph {
        edges: vec![vec![(1, isize::MAX - 2)], vec![]],
        goals: vec![],
        estimates: vec![0, 10],
    });
    let kids = GraphNode::root(g, 0).get_descendants();
    assert_eq!(kids[0].get_heuristic(), 2);
    assert_eq!(kids[0].get_cost() + kids[0].get_heuristic(), isize::MAX);
}

#[test]
fn uniform_cost_on_line_graph() {
    let mut d = Dijkstra::new();
    let found = d.find_solution(GraphNode::root(line_graph(), 0)).unwrap();
    assert_eq!(found.get_cost(), 4);
    assert_eq!(d.get_visited(), vec![0, 1, 2]);
}
