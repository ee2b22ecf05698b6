use search::a_star::AStar;
use search::bfs::BFS;
use search::dfbnb::DFBnB;
use search::dfs::DFS;
use search::dijkstra::Dijkstra;
use search::graph::{Graph, GraphNode};
use search::traits::algorithm::Algorithm;
use search::traits::node::Node;
use std::rc::Rc;

/// The vertices from the start to `n`.
fn route(n: &GraphNode) -> Vec<u64> {
    let mut r = vec![n.get_state()];
    let mut cur = n.get_parent();
    while let Some(p) = cur {
        r.push(p.get_state());
        cur = p.get_parent();
    }
    r.reverse();
    r
}

/// A(0) -> B(1) cost 1, A -> C(2) cost 5, B -> C cost 1; C is the goal.
fn diamond() -> Graph {
    Graph {
        edges: vec![vec![(1, 1), (2, 5)], vec![(2, 1)], vec![]],
        goals: vec![2],
        estimates: vec![0, 0, 0],
    }
}

#[test]
fn bfs_on_diamond() {
    let mut bfs = BFS::new();
    let found = bfs.find_solution(GraphNode::root(Rc::new(diamond()), 0)).unwrap();
    assert_eq!(route(&found), vec![0, 2]);
    assert_eq!(found.get_cost(), 5);
    assert_eq!(bfs.get_visited(), vec![0, 1, 2]);
}

fn graph(edges: Vec<Vec<(u64, isize)>>, goals: Vec<u64>) -> Graph {
    let estimates = vec![0; edges.len()];
    Graph { edges, goals, estimates }
}

/// Runs `algo` from vertex 0 and returns the route and cost found, with the
/// visited states.
fn run<A: Algorithm<GraphNode>>(algo: &mut A, g: &Rc<Graph>) -> (Option<(Vec<u64>, isize)>, Vec<u64>) {
    let found = algo.find_solution(GraphNode::root(g.clone(), 0));
    (found.map(|n| (route(&n), n.get_cost())), algo.get_visited())
}

/// A layered graph with a cheap long route and a dear short one:
/// 0 -> 1 -> 2 -> 3 -> 5 costs 4, 0 -> 4 -> 5 costs 20.
fn long_and_short() -> Rc<Graph> {
    Rc::new(graph(
        vec![vec![(1, 1), (4, 10)], vec![(2, 1)], vec![(3, 1)], vec![(5, 1)], vec![(5, 10)], vec![]],
        vec![5],
    ))
}

/// A graph with a cycle 0 -> 1 -> 2 -> 0 and no goal.
fn cycle_without_goal() -> Rc<Graph> {
    Rc::new(graph(vec![vec![(1, 1)], vec![(2, 1)], vec![(0, 1)], vec![(0, 1)]], vec![]))
}

#[test]
fn dijkstra_takes_cheapest_route_in_diamond() {
    let g = Rc::new(diamond());
    let (found, visited) = run(&mut Dijkstra::new(), &g);
    assert_eq!(found, Some((vec![0, 1, 2], 2)));
    let mut sorted = visited.clone();
    sorted.sort();
    assert_eq!(sorted, vec![0, 1, 2]);
}

#[test]
fn a_star_with_zero_heuristic_matches_dijkstra() {
    let g = Rc::new(diamond());
    let (a, a_visited) = run(&mut AStar::new(), &g);
    let (d, d_visited) = run(&mut Dijkstra::new(), &g);
    assert_eq!(a, d);
    assert_eq!(a_visited, d_visited);
    assert_eq!(a, Some((vec![0, 1, 2], 2)));
}

#[test]
fn dfs_and_dfbnb_on_diamond() {
    let g = Rc::new(diamond());
    let (dfs, _) = run(&mut DFS::new(), &g);
    assert_eq!(dfs, Some((vec![0, 1, 2], 2)));
    let (bnb, _) = run(&mut DFBnB::new(), &g);
    assert_eq!(bnb, Some((vec![0, 1, 2], 2)));
}

fn goal_at_root() -> Rc<Graph> {
    Rc::new(graph(vec![vec![(1, 1)], vec![]], vec![0]))
}

fn assert_root_returned<A: Algorithm<GraphNode>>(algo: &mut A) {
    let (found, visited) = run(algo, &goal_at_root());
    assert_eq!(found, Some((vec![0], 0)));
    assert_eq!(visited, vec![0]);
}

#[test]
fn bfs_returns_solved_root() {
    assert_root_returned(&mut BFS::new());
}

#[test]
fn dfs_returns_solved_root() {
    assert_root_returned(&mut DFS::new());
}

#[test]
fn dfbnb_returns_solved_root() {
    assert_root_returned(&mut DFBnB::new());
}

#[test]
fn dijkstra_returns_solved_root() {
    assert_root_returned(&mut Dijkstra::new());
}

#[test]
fn a_star_returns_solved_root() {
    assert_root_returned(&mut AStar::new());
}

#[test]
fn bfs_minimises_edge_count() {
    let (found, _) = run(&mut BFS::new(), &long_and_short());
    assert_eq!(found, Some((vec![0, 4, 5], 20)));
}

#[test]
fn dijkstra_minimises_cost() {
    let (found, visited) = run(&mut Dijkstra::new(), &long_and_short());
    assert_eq!(found, Some((vec![0, 1, 2, 3, 5], 4)));
    assert!(visited.len() >= 1 && visited.len() <= 6);
    assert_eq!(visited[0], 0);
}

#[test]
fn a_star_with_admissible_heuristic_finds_optimum() {
    let mut g = graph(
        vec![vec![(1, 1), (4, 10)], vec![(2, 1)], vec![(3, 1)], vec![(5, 1)], vec![(5, 10)], vec![]],
        vec![5],
    );
    g.estimates = vec![4, 3, 2, 1, 10, 0];
    let g = Rc::new(g);
    let (a, _) = run(&mut AStar::new(), &g);
    let (d, _) = run(&mut Dijkstra::new(), &g);
    assert_eq!(a.as_ref().map(|r| r.1), Some(4));
    assert_eq!(a, d);
}

#[test]
fn a_star_heuristic_steers_expansion() {
    // Vertex 1 looks hopeless to the heuristic, so A* never expands it.
    let mut g = graph(vec![vec![(1, 1), (2, 2)], vec![(3, 1)], vec![(3, 1)], vec![]], vec![3]);
    g.estimates = vec![0, 100, 1, 0];
    let g = Rc::new(g);
    let (a, a_visited) = run(&mut AStar::new(), &g);
    assert_eq!(a, Some((vec![0, 2, 3], 3)));
    assert_eq!(a_visited, vec![0, 1, 2, 3]);
    let (d, _) = run(&mut Dijkstra::new(), &g);
    assert_eq!(d, Some((vec![0, 1, 3], 2)));
}

#[test]
fn dfs_follows_first_branch() {
    let (found, visited) = run(&mut DFS::new(), &long_and_short());
    assert_eq!(found, Some((vec![0, 1, 2, 3, 5], 4)));
    assert_eq!(visited, vec![0, 1, 2, 3, 5]);
}

#[test]
fn dfbnb_improves_on_dfs() {
    // DFS takes the first branch, 0 -> 1 -> 3 (cost 10); the bound then finds 0 -> 2 -> 3.
    let g = Rc::new(graph(vec![vec![(1, 5), (2, 1)], vec![(3, 5)], vec![(3, 1)], vec![]], vec![3]));
    let (dfs, _) = run(&mut DFS::new(), &g);
    assert_eq!(dfs, Some((vec![0, 1, 3], 10)));
    let (bnb, _) = run(&mut DFBnB::new(), &g);
    assert_eq!(bnb, Some((vec![0, 2, 3], 2)));
    assert!(bnb.unwrap().1 <= dfs.unwrap().1);
}

#[test]
fn dfbnb_reenters_state_on_cheaper_cost() {
    // Vertex 2 is first reached for 10, then again for 2; the goal 3 lies behind it.
    let g = Rc::new(graph(
        vec![vec![(2, 10), (1, 1)], vec![(2, 1)], vec![(3, 1)], vec![]],
        vec![3],
    ));
    let (bnb, visited) = run(&mut DFBnB::new(), &g);
    assert_eq!(bnb, Some((vec![0, 1, 2, 3], 3)));
    assert_eq!(visited, vec![0, 2, 1]);
}

#[test]
fn dfbnb_prunes_zero_cost_cycle() {
    let g = Rc::new(graph(vec![vec![(1, 0)], vec![(0, 0), (2, 0)], vec![]], vec![]));
    let (bnb, visited) = run(&mut DFBnB::new(), &g);
    assert_eq!(bnb, None);
    assert_eq!(visited, vec![0, 1, 2]);
}

fn assert_exhausts_cycle<A: Algorithm<GraphNode>>(algo: &mut A) {
    let (found, visited) = run(algo, &cycle_without_goal());
    assert_eq!(found, None);
    let mut sorted = visited.clone();
    sorted.sort();
    // Vertex 3 is not reachable from the root.
    assert_eq!(sorted, vec![0, 1, 2]);
}

#[test]
fn bfs_exhausts_without_goal() {
    assert_exhausts_cycle(&mut BFS::new());
}

#[test]
fn dfs_exhausts_without_goal() {
    assert_exhausts_cycle(&mut DFS::new());
}

#[test]
fn dfbnb_exhausts_without_goal() {
    assert_exhausts_cycle(&mut DFBnB::new());
}

#[test]
fn dijkstra_exhausts_without_goal() {
    assert_exhausts_cycle(&mut Dijkstra::new());
}

#[test]
fn a_star_exhausts_without_goal() {
    assert_exhausts_cycle(&mut AStar::new());
}

#[test]
fn reruns_give_same_cost() {
    let g = long_and_short();
    let mut algo = Dijkstra::new();
    let (first, first_visited) = run(&mut algo, &g);
    let (second, second_visited) = run(&mut algo, &g);
    assert_eq!(first, second);
    assert_eq!(first_visited, second_visited);
    let (fresh, _) = run(&mut Dijkstra::new(), &g);
    assert_eq!(first, fresh);
    let mut bfs = BFS::new();
    assert_eq!(run(&mut bfs, &g), run(&mut bfs, &g));
    let mut bnb = DFBnB::new();
    assert_eq!(run(&mut bnb, &g), run(&mut bnb, &g));
}

#[test]
fn visited_is_empty_before_a_run() {
    assert!(BFS::<GraphNode>::new().get_visited().is_empty());
    assert!(DFS::<GraphNode>::new().get_visited().is_empty());
    assert!(DFBnB::<GraphNode>::new().get_visited().is_empty());
    assert!(Dijkstra::<GraphNode>::new().get_visited().is_empty());
    assert!(AStar::<GraphNode>::new().get_visited().is_empty());
}

#[test]
fn stale_entries_do_not_change_result() {
    // State 2 is queued at cost 5, then improved to 2; the stale entry is expanded later.
    let g = Rc::new(graph(
        vec![vec![(1, 1), (2, 5)], vec![(2, 1)], vec![(3, 10)], vec![]],
        vec![3],
    ));
    let (found, visited) = run(&mut Dijkstra::new(), &g);
    assert_eq!(found, Some((vec![0, 1, 2, 3], 12)));
    assert_eq!(visited, vec![0, 1, 2, 3]);
}
