use maze_carver::Maze;
use std::collections::VecDeque;

fn removed(m: &Maze) -> usize {
    let v: usize = m.vert_walls.iter().map(|r| r.iter().filter(|w| !**w).count()).sum();
    let h: usize = m.hor_walls.iter().map(|r| r.iter().filter(|w| !**w).count()).sum();
    v + h
}

fn open(m: &Maze, a: (usize, usize), b: (usize, usize)) -> bool {
    let (ax, ay) = a;
    let (bx, by) = b;
    if ay == by && bx == ax + 1 {
        !m.vert_walls[ay][bx]
    } else if ay == by && ax == bx + 1 {
        !m.vert_walls[ay][ax]
    } else if ax == bx && by == ay + 1 {
        !m.hor_walls[by][ax]
    } else if ax == bx && ay == by + 1 {
        !m.hor_walls[ay][ax]
    } else {
        false
    }
}

/// Breadth-first distances from (0, 0); `usize::MAX` where unreachable.
fn bfs(m: &Maze) -> Vec<Vec<usize>> {
    let mut d = vec![vec![usize::MAX; m.width]; m.height];
    let mut q = VecDeque::new();
    d[0][0] = 0;
    q.push_back((0usize, 0usize));
    while let Some((x, y)) = q.pop_front() {
        let mut ns = Vec::new();
        if x + 1 < m.width {
            ns.push((x + 1, y));
        }
        if x > 0 {
            ns.push((x - 1, y));
        }
        if y + 1 < m.height {
            ns.push((x, y + 1));
        }
        if y > 0 {
            ns.push((x, y - 1));
        }
        for n in ns {
            if open(m, (x, y), n) && d[n.1][n.0] == usize::MAX {
                d[n.1][n.0] = d[y][x] + 1;
                q.push_back(n);
            }
        }
    }
    d
}

fn check_path(m: &Maze, p: &[(usize, usize)]) {
    assert_eq!(p[0], (0, 0));
    assert_eq!(*p.last().unwrap(), (m.width - 1, m.height - 1));
    for w in p.windows(2) {
        assert!(open(m, w[0], w[1]), "step {:?} -> {:?} crosses a wall", w[0], w[1]);
    }
}

fn boundary_closed(m: &Maze) -> bool {
    (0..m.height).all(|y| m.vert_walls[y][0] && m.vert_walls[y][m.width])
        && (0..m.width).all(|x| m.hor_walls[0][x] && m.hor_walls[m.height][x])
}

#[test]
fn new_grid_has_every_wall() {
    let m = Maze::new(3, 2);
    assert_eq!(m.width, 3);
    assert_eq!(m.height, 2);
    assert_eq!(m.vert_walls, vec![vec![true; 4]; 2]);
    assert_eq!(m.hor_walls, vec![vec![true; 3]; 3]);
    assert_eq!(removed(&m), 0);
}

#[test]
fn wall_queries_and_removal() {
    let mut m = Maze::new(3, 3);
    assert!(m.has_vertical_wall(1, 2));
    m.remove_vertical_wall(1, 2);
    assert!(!m.has_vertical_wall(1, 2));
    assert!(m.has_horizontal_wall(2, 1));
    m.remove_horizontal_wall(2, 1);
    assert!(!m.has_horizontal_wall(2, 1));
    assert_eq!(removed(&m), 2);
}

#[test]
fn generated_maze_is_spanning_tree() {
    for (w, h) in [(1, 1), (1, 5), (5, 1), (2, 2), (7, 4), (10, 10), (20, 13)] {
        let mut m = Maze::new(w, h);
        assert!(m.generate());
        assert_eq!(removed(&m), w * h - 1, "size {}x{}", w, h);
        assert!(boundary_closed(&m));
        let d = bfs(&m);
        assert!(d.iter().all(|r| r.iter().all(|v| *v != usize::MAX)));
    }
}

#[test]
fn seeded_generation_is_deterministic() {
    let mut a = Maze::new(12, 9);
    let mut b = Maze::new(12, 9);
    a.generate_seeded(42);
    b.generate_seeded(42);
    assert_eq!(a.vert_walls, b.vert_walls);
    assert_eq!(a.hor_walls, b.hor_walls);
}

#[test]
fn seeds_shuffle_the_directions() {
    let orders = vec![vec![0u8, 1, 2, 3]; 36];
    let mut plain = Maze::new(6, 6);
    plain.carve(&orders);
    let mut differs = false;
    for seed in 0..20u64 {
        let mut m = Maze::new(6, 6);
        m.generate_seeded(seed);
        if m.vert_walls != plain.vert_walls || m.hor_walls != plain.hor_walls {
            differs = true;
        }
    }
    assert!(differs);
}

#[test]
fn carve_with_fixed_orders() {
    let orders = vec![vec![0u8, 1, 2, 3]; 4];
    let mut m = Maze::new(2, 2);
    m.carve(&orders);
    assert_eq!(m.vert_walls, vec![vec![true, false, true], vec![true, false, true]]);
    assert_eq!(m.hor_walls, vec![vec![true, true], vec![true, false], vec![true, true]]);
    assert_eq!(m.solve(), vec![(0, 0), (1, 0), (1, 1)]);
}

#[test]
fn carve_with_reversed_orders() {
    let orders = vec![vec![3u8, 2, 1, 0]; 6];
    let mut m = Maze::new(3, 2);
    m.carve(&orders);
    // (0,0) down, right, up to (1,0), right to (2,0), down to (2,1)
    assert_eq!(m.hor_walls[1], vec![false, false, false]);
    assert_eq!(m.vert_walls[1], vec![true, false, true, true]);
    assert_eq!(m.vert_walls[0], vec![true, true, false, true]);
    assert_eq!(removed(&m), 5);
}

#[test]
fn solved_path_is_valid_and_shortest() {
    for seed in 0..10u64 {
        let mut m = Maze::new(15, 11);
        m.generate_seeded(seed);
        let p = m.solve();
        check_path(&m, &p);
        let d = bfs(&m);
        assert_eq!(p.len() - 1, d[m.height - 1][m.width - 1]);
    }
}

#[test]
fn solving_twice_gives_equal_lengths() {
    let mut m = Maze::new(17, 8);
    m.generate_seeded(7);
    assert_eq!(m.solve().len(), m.solve().len());
}

#[test]
fn solver_on_open_grid_is_shortest() {
    let mut m = Maze::new(5, 4);
    for y in 0..4 {
        for x in 1..5 {
            m.remove_vertical_wall(x, y);
        }
    }
    for y in 1..4 {
        for x in 0..5 {
            m.remove_horizontal_wall(x, y);
        }
    }
    let p = m.solve();
    check_path(&m, &p);
    assert_eq!(p.len(), 8);
}

#[test]
fn one_cell_maze() {
    let mut m = Maze::new(1, 1);
    assert!(m.generate());
    assert_eq!(removed(&m), 0);
    assert_eq!(m.solve(), vec![(0, 0)]);
}

#[test]
fn unreachable_goal_gives_start_only() {
    let m = Maze::new(3, 3);
    let p = m.solve();
    assert_eq!(p, vec![(0, 0)]);
    assert_ne!(*p.last().unwrap(), (2, 2));
}

#[test]
fn goal_cut_off_from_open_start() {
    let mut m = Maze::new(3, 1);
    m.remove_vertical_wall(1, 0);
    let p = m.solve();
    assert_eq!(p, vec![(0, 0)]);
}
