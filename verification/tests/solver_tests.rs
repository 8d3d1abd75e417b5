use dungeon_core::graph::Graph;
use dungeon_core::search::AStarSearch;
use dungeon_core::search::SearchStrategy;
use dungeon_core::solver::Solver;

fn line_graph(n: isize) -> Graph {
    let mut g = Graph::new();
    for x in 0..n {
        g.add_node_at(x, 0);
    }
    for x in 0..n - 1 {
        g.connect_nodes_at(x, 0, x + 1, 0);
    }
    g
}

#[test]
fn queued_problem_round_trips_with_its_id() {
    let g = line_graph(6);
    let mut solver = Solver::new();
    assert_eq!(solver.get_problem_count(), 0);
    solver.queue_solve(42, &g, (0, 0), (5, 0));
    assert_eq!(solver.get_problem_count(), 1);
    let s = solver.poll().expect("one problem was queued");
    assert_eq!(s.id, 42);
    // the pool's answer matches solving directly on the same graph
    let direct = AStarSearch::new_diagonal().solve(&g, (0, 0), (5, 0));
    assert_eq!(s.path, direct);
    assert_eq!(s.path, Some(vec![(0, 0), (1, 0), (2, 0), (3, 0), (4, 0), (5, 0)]));
    assert_eq!(solver.get_problem_count(), 0);
    assert!(solver.poll().is_none());
}

#[test]
fn problems_resolve_in_submission_order() {
    let g = line_graph(4);
    let mut solver = Solver::new();
    solver.queue_solve(1, &g, (0, 0), (3, 0));
    solver.queue_solve(2, &g, (3, 0), (0, 0));
    assert_eq!(solver.get_problem_count(), 2);
    assert_eq!(solver.poll().unwrap().id, 1);
    assert_eq!(solver.poll().unwrap().id, 2);
    assert!(solver.poll().is_none());
}

#[test]
fn unsolvable_problems_resolve_to_an_absent_path() {
    let mut g = Graph::new();
    g.add_node_at(0, 0);
    g.add_node_at(2, 2);
    let mut solver = Solver::new();
    solver.queue_solve(7, &g, (0, 0), (2, 2));
    let s = solver.poll().expect("one problem was queued");
    assert_eq!(s.id, 7);
    assert!(s.path.is_none());
}

#[test]
fn a_missing_endpoint_resolves_to_an_absent_path() {
    let g = line_graph(3);
    let mut solver = Solver::new();
    solver.queue_solve(8, &g, (0, 0), (9, 9));
    let s = solver.poll().expect("one problem was queued");
    assert!(s.path.is_none());
}
