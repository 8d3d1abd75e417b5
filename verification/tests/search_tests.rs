use dungeon_core::graph::Graph;
use dungeon_core::search::AStarSearch;
use dungeon_core::search::SearchStrategy;

/// A `w` by `h` grid graph with every node present except `holes`, and all
/// 8-directional edges between present neighbors (diagonals only past
/// passable flanks, matching how dungeons are wired up).
fn grid_graph(w: isize, h: isize, holes: &[(isize, isize)]) -> Graph {
    let mut g = Graph::new();
    for y in 0..h {
        for x in 0..w {
            if !holes.contains(&(x, y)) {
                g.add_node_at(x, y);
            }
        }
    }
    for y in 0..h {
        for x in 0..w {
            if g.find_node_at(x, y).is_none() {
                continue;
            }
            g.connect_nodes_at(x, y, x + 1, y);
            g.connect_nodes_at(x, y, x, y + 1);
            if g.find_node_at(x + 1, y).is_some() && g.find_node_at(x, y + 1).is_some() {
                g.connect_nodes_at(x, y, x + 1, y + 1);
            }
            if g.find_node_at(x - 1, y).is_some() && g.find_node_at(x, y + 1).is_some() {
                g.connect_nodes_at(x, y, x - 1, y + 1);
            }
        }
    }
    g
}

/// Every consecutive pair of the path is one grid step apart, and every
/// node is present in the graph.
fn assert_valid_grid_path(g: &Graph, path: &[(isize, isize)]) {
    for &(x, y) in path {
        assert!(g.find_node_at(x, y).is_some(), "path node ({x},{y}) missing from graph");
    }
    for win in path.windows(2) {
        let (ax, ay) = win[0];
        let (bx, by) = win[1];
        let dx = (bx - ax).abs();
        let dy = (by - ay).abs();
        assert!(dx <= 1 && dy <= 1 && dx + dy >= 1, "non-adjacent step {win:?}");
    }
}

#[test]
fn forced_detour_has_known_length() {
    // a 5x5 grid with a wall through x=2 except the bottom row: the only
    // way from the left half to the right half runs under the wall
    let holes = [(2, 0), (2, 1), (2, 2), (2, 3)];
    let g = grid_graph(5, 5, &holes);
    let search = AStarSearch::new_diagonal();
    let path = search.solve(&g, (0, 2), (4, 2)).expect("a route exists under the wall");
    assert_eq!(path[0], (0, 2));
    assert_eq!(*path.last().unwrap(), (4, 2));
    assert_valid_grid_path(&g, &path);
    // hand-computed optimum, minding that diagonals may not cut past the
    // wall's flank: (0,2) (1,3) (1,4) (2,4) (3,4) (3,3) (4,2)
    assert_eq!(path.len(), 7);
}

#[test]
fn disconnected_components_give_no_path() {
    // two nodes with no edges at all
    let mut g = Graph::new();
    g.add_node_at(0, 0);
    g.add_node_at(5, 5);
    let search = AStarSearch::new_diagonal();
    assert!(search.solve(&g, (0, 0), (5, 5)).is_none());
}

#[test]
fn missing_endpoints_give_no_path() {
    let g = grid_graph(3, 3, &[]);
    let search = AStarSearch::new_euclidean();
    assert!(search.solve(&g, (-1, 0), (2, 2)).is_none());
    assert!(search.solve(&g, (0, 0), (7, 7)).is_none());
}

#[test]
fn start_equal_to_goal_is_a_singleton_path() {
    let g = grid_graph(3, 3, &[]);
    let search = AStarSearch::new_dijkstra();
    let path = search.solve(&g, (1, 1), (1, 1)).expect("the node exists");
    assert_eq!(path, vec![(1, 1)]);
}

#[test]
fn open_grid_diagonal_is_straight() {
    // a 10x10 empty graph: the diagonal heuristic walks the main diagonal,
    // ten coordinates from corner to corner
    let g = grid_graph(10, 10, &[]);
    let search = AStarSearch::new_diagonal();
    let path = search.solve(&g, (0, 0), (9, 9)).expect("the open grid connects its corners");
    assert_eq!(path[0], (0, 0));
    assert_eq!(*path.last().unwrap(), (9, 9));
    assert_valid_grid_path(&g, &path);
    assert_eq!(path.len(), 10);
}

#[test]
fn removed_row_walls_off_the_far_corner() {
    // the same 10x10 grid with the row y=5 removed entirely: with steps of
    // at most one tile no route crosses the gap, so the result is absent
    let holes: Vec<(isize, isize)> = (0..10).map(|x| (x, 5)).collect();
    let g = grid_graph(10, 10, &holes);
    let search = AStarSearch::new_diagonal();
    assert!(search.solve(&g, (0, 0), (9, 9)).is_none());
}

#[test]
fn partial_wall_is_skirted() {
    // the row y=5 removed for x <= 8 leaves one gap at (9,5); the path must
    // pass through it and may touch no other cell of that row
    let holes: Vec<(isize, isize)> = (0..9).map(|x| (x, 5)).collect();
    let g = grid_graph(10, 10, &holes);
    let search = AStarSearch::new_diagonal();
    let path = search.solve(&g, (0, 0), (9, 9)).expect("the gap keeps the grid connected");
    assert_eq!(path[0], (0, 0));
    assert_eq!(*path.last().unwrap(), (9, 9));
    assert_valid_grid_path(&g, &path);
    assert!(path.contains(&(9, 5)));
    for &(x, y) in &path {
        assert!(y != 5 || x == 9, "path touches the removed row at ({x},{y})");
    }
}

#[test]
fn all_heuristics_find_valid_routes() {
    let holes = [(1, 1), (2, 1), (3, 1)];
    let g = grid_graph(5, 4, &holes);
    for search in [
        AStarSearch::new_dijkstra(),
        AStarSearch::new_diagonal(),
        AStarSearch::new_euclidean(),
    ] {
        let path = search.solve(&g, (0, 0), (4, 3)).expect("connected");
        assert_eq!(path[0], (0, 0));
        assert_eq!(*path.last().unwrap(), (4, 3));
        assert_valid_grid_path(&g, &path);
    }
}
