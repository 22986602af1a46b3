use advent_of_code::grid2d::GridMap;
use advent_of_code::grid2d::grid_adjacency;
use advent_of_code::search::bfs_reachable;
use advent_of_code::search::bfs_reachable_count;
use advent_of_code::search::dijkstra;

fn open_3x3() -> GridMap {
    let lines: Vec<Vec<u8>> = vec![b"...".to_vec(), b"...".to_vec(), b"...".to_vec()];
    GridMap::from_lines(&lines).unwrap()
}

#[test]
fn grid_from_lines_shape() {
    let g = open_3x3();
    assert_eq!(g.width(), 3);
    assert_eq!(g.height(), 3);
    assert_eq!(g.get(0, 0), Some('.'));
    assert_eq!(g.get(2, 2), Some('.'));
    assert_eq!(g.get(3, 0), None);
    assert_eq!(g.get(0, 3), None);
}

#[test]
fn grid_neighbors_stay_inside() {
    let g = open_3x3();
    for y in 0..3usize {
        for x in 0..3usize {
            for (nx, ny, c) in g.neighbors(x, y) {
                assert!(nx < 3 && ny < 3);
                assert_eq!(c, '.');
            }
        }
    }
    // a corner has two neighbours, the centre four
    assert_eq!(g.neighbors(0, 0).len(), 2);
    assert_eq!(g.neighbors(1, 1).len(), 4);
}

#[test]
fn grid_set_changes_one_cell() {
    let mut g = open_3x3();
    g.set(1, 1, '#');
    assert_eq!(g.get(1, 1), Some('#'));
    assert_eq!(g.get(0, 1), Some('.'));
    assert_eq!(g.get(1, 0), Some('.'));
}

#[test]
fn shortest_path_on_open_grid_is_four() {
    // a 3x3 grid of all open cells, start at (0,0), goal at (2,2), unit
    // edge cost: the shortest path costs 4
    let g = open_3x3();
    let adj = grid_adjacency(&g);
    let dist = dijkstra(&adj, 0, 1);
    assert_eq!(dist[8], Some(4));
    assert_eq!(dist[0], Some(0));
    assert_eq!(dist[4], Some(2));
}

#[test]
fn bfs_marks_exactly_the_reachable_states() {
    // two components: {0,1} and {2}
    let adj: Vec<Vec<(usize, u64)>> = vec![vec![(1, 1)], vec![(0, 1)], vec![]];
    let visited = bfs_reachable(&adj, 0);
    assert_eq!(visited, vec![true, true, false]);
    assert_eq!(bfs_reachable_count(&adj, 0), 2);
    assert_eq!(bfs_reachable_count(&adj, 2), 1);
}

#[test]
fn repeated_search_is_identical() {
    // repeating the same search on an unmodified grid yields identical
    // results
    let g = open_3x3();
    let adj = grid_adjacency(&g);
    let d1 = dijkstra(&adj, 0, 1);
    let d2 = dijkstra(&adj, 0, 1);
    assert_eq!(d1, d2);
    let v1 = bfs_reachable(&adj, 0);
    let v2 = bfs_reachable(&adj, 0);
    assert_eq!(v1, v2);
}

#[test]
fn walls_cut_the_path() {
    let lines: Vec<Vec<u8>> = vec![b".#.".to_vec(), b".#.".to_vec(), b".#.".to_vec()];
    let g = GridMap::from_lines(&lines).unwrap();
    let adj = grid_adjacency(&g);
    let dist = dijkstra(&adj, 0, 1);
    // the right column is unreachable across the wall
    assert_eq!(dist[2], None);
    assert_eq!(dist[8], None);
    assert_eq!(dist[6], Some(2));
}
