use maze_paths::{Algorithm, Dir, Maze, MazeError, SearchResult};

const DIRS: [Dir; 4] = [Dir::North, Dir::East, Dir::South, Dir::West];

fn delta(d: Dir) -> (isize, isize) {
    match d {
        Dir::North => (0, -1),
        Dir::East => (1, 0),
        Dir::South => (0, 1),
        Dir::West => (-1, 0),
    }
}

/// The direction leading from `a` to the adjacent cell `b`, if any.
fn dir_between(a: (usize, usize), b: (usize, usize)) -> Option<Dir> {
    for d in DIRS {
        let (dx, dy) = delta(d);
        let nx = a.0 as isize + dx;
        let ny = a.1 as isize + dy;
        if nx == b.0 as isize && ny == b.1 as isize {
            return Some(d);
        }
    }
    None
}

fn assert_valid_route(m: &Maze, r: &SearchResult) {
    assert_eq!(r.path[0], m.start_point());
    assert_eq!(*r.path.last().unwrap(), m.end_point());
    for w in r.path.windows(2) {
        let d = dir_between(w[0], w[1]).expect("route cells must be adjacent");
        assert!(!m.wall(w[0].0, w[0].1, d), "route crosses a standing wall");
    }
}

#[test]
fn zero_dimensions_are_rejected() {
    assert!(matches!(Maze::new(0, 5), Err(MazeError::InvalidDimension)));
    assert!(matches!(Maze::new(7, 0), Err(MazeError::InvalidDimension)));
    assert!(matches!(Maze::new(0, 0), Err(MazeError::InvalidDimension)));
    assert!(Maze::new(1, 1).is_ok());
}

#[test]
fn new_maze_is_fully_walled_and_unvisited() {
    let m = Maze::new(3, 2).unwrap();
    assert_eq!(m.width(), 3);
    assert_eq!(m.height(), 2);
    assert_eq!(m.start_point(), (0, 0));
    assert_eq!(m.end_point(), (2, 1));
    for y in 0..2 {
        for x in 0..3 {
            assert!(!m.is_visited(x, y));
            for d in DIRS {
                assert!(m.wall(x, y, d));
            }
        }
    }
}

#[test]
fn generation_visits_every_cell() {
    let mut m = Maze::new(8, 5).unwrap();
    m.generate_iterative();
    for y in 0..5 {
        for x in 0..8 {
            assert!(m.is_visited(x, y));
        }
    }
    let mut l = Maze::new(6, 7).unwrap();
    l.generate_with_loops();
    for y in 0..7 {
        for x in 0..6 {
            assert!(l.is_visited(x, y));
        }
    }
}

#[test]
fn walls_are_carved_in_matched_pairs() {
    let mut m = Maze::new(9, 6).unwrap();
    m.generate_with_loops();
    for y in 0..6usize {
        for x in 0..9usize {
            for d in DIRS {
                let (dx, dy) = delta(d);
                let nx = x as isize + dx;
                let ny = y as isize + dy;
                if nx >= 0 && nx < 9 && ny >= 0 && ny < 6 {
                    assert_eq!(
                        m.wall(x, y, d),
                        m.wall(nx as usize, ny as usize, d.opposite()),
                        "wall flags disagree between ({x},{y}) and its neighbor"
                    );
                }
            }
        }
    }
}

fn carved_edges(m: &Maze) -> usize {
    let mut edges = 0;
    for y in 0..m.height() {
        for x in 0..m.width() {
            if x + 1 < m.width() && !m.wall(x, y, Dir::East) {
                edges += 1;
            }
            if y + 1 < m.height() && !m.wall(x, y, Dir::South) {
                edges += 1;
            }
        }
    }
    edges
}

#[test]
fn perfect_maze_has_spanning_tree_edge_count() {
    let mut m = Maze::new(7, 4).unwrap();
    m.generate_iterative();
    assert_eq!(carved_edges(&m), 7 * 4 - 1);
}

#[test]
fn loop_maze_has_at_least_spanning_tree_edge_count() {
    let mut m = Maze::new(10, 8).unwrap();
    m.generate_with_loops();
    assert!(carved_edges(&m) >= 10 * 8 - 1);
}

#[test]
fn corridor_bfs_route() {
    // a 3-by-1 maze can only be carved into the straight corridor
    let mut m = Maze::new(3, 1).unwrap();
    m.generate_iterative();
    let r = m.path_finding_bfs();
    assert_eq!(r.path, vec![(0, 0), (1, 0), (2, 0)]);
    assert_eq!(r.path.len(), 3);
}

#[test]
fn vertical_corridor_dfs_route() {
    // a 1-by-3 maze is a vertical corridor ending at (0, 2)
    let mut m = Maze::new(1, 3).unwrap();
    m.generate_iterative();
    assert_eq!(m.end_point(), (0, 2));
    let r = m.path_finding_dfs();
    assert_eq!(r.path, vec![(0, 0), (0, 1), (0, 2)]);
}

#[test]
fn fully_walled_maze_is_unreachable() {
    // no generation pass: every wall stands and the end cannot be reached
    let m = Maze::new(3, 3).unwrap();
    let b = m.path_finding_bfs();
    let d = m.path_finding_dfs();
    assert_ne!(*b.path.last().unwrap(), m.start_point());
    assert_ne!(*d.path.last().unwrap(), m.start_point());
    assert_ne!(b.path[0], m.start_point());
    assert_ne!(d.path[0], m.start_point());
    assert_eq!(b.path, vec![(2, 2)]);
    assert_eq!(d.path, vec![(2, 2)]);
}

#[test]
fn routes_follow_open_walls() {
    let mut m = Maze::new(11, 7).unwrap();
    m.generate_with_loops();
    let b = m.path_finding_bfs();
    let d = m.path_finding_dfs();
    assert_valid_route(&m, &b);
    assert_valid_route(&m, &d);
}

#[test]
fn bfs_route_is_not_longer_than_dfs_route() {
    let mut m = Maze::new(12, 9).unwrap();
    m.generate_with_loops();
    let b = m.path_finding_bfs();
    let d = m.path_finding_dfs();
    assert_eq!(b.path[0], m.start_point());
    assert_eq!(d.path[0], m.start_point());
    assert!(b.path.len() <= d.path.len());
}

#[test]
fn repeated_reads_return_identical_results() {
    let mut m = Maze::new(9, 9).unwrap();
    m.generate_with_loops();
    let b1 = m.path_finding_bfs();
    let b2 = m.path_finding_bfs();
    assert_eq!(b1.steps, b2.steps);
    assert_eq!(b1.path, b2.path);
    assert_eq!(b1.entire_path, b2.entire_path);
    let d1 = m.path_finding_dfs();
    let d2 = m.path_finding_dfs();
    assert_eq!(d1.steps, d2.steps);
    assert_eq!(d1.path, d2.path);
    assert_eq!(d1.entire_path, d2.entire_path);
}

#[test]
fn exploration_order_starts_at_start() {
    let mut m = Maze::new(5, 5).unwrap();
    m.generate_iterative();
    let b = m.path_finding_bfs();
    let d = m.path_finding_dfs();
    assert_eq!(b.entire_path[0], (0, 0));
    assert_eq!(d.entire_path[0], (0, 0));
    assert!(b.steps >= 1 && b.steps <= 25);
    assert!(d.steps >= 1 && d.steps <= 25);
}

#[test]
fn solve_dispatches_both_strategies() {
    let mut m = Maze::new(6, 6).unwrap();
    m.generate_with_loops();
    let b = m.solve(Algorithm::Bfs);
    let d = m.solve(Algorithm::Dfs);
    assert_eq!(b.path, m.path_finding_bfs().path);
    assert_eq!(d.path, m.path_finding_dfs().path);
    assert!(b.path.len() <= d.path.len());
}

#[test]
fn single_cell_maze_route_is_the_start() {
    let mut m = Maze::new(1, 1).unwrap();
    m.generate_iterative();
    let b = m.path_finding_bfs();
    let d = m.path_finding_dfs();
    assert_eq!(b.path, vec![(0, 0)]);
    assert_eq!(d.path, vec![(0, 0)]);
    assert_eq!(b.steps, 1);
    assert_eq!(d.steps, 1);
}
