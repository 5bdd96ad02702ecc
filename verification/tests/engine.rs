use astar_grid::cell::CellStatus;
use astar_grid::grid::Grid;
use astar_grid::search::SearchState;
use astar_grid::{heuristic, Coord};

fn grid_with(blocked: &[(usize, usize)], w: usize, h: usize) -> Grid {
    let mut g = Grid::new(w, h);
    for &(x, y) in blocked {
        g.set_blocked(x, y, true);
    }
    g
}

fn run(
    blocked: &[(usize, usize)],
    w: usize,
    h: usize,
    s: (usize, usize),
    e: (usize, usize),
    gm: u64,
    hm: u64,
) -> SearchState {
    let mut st = SearchState::new(
        grid_with(blocked, w, h),
        Coord { x: s.0, y: s.1 },
        Coord { x: e.0, y: e.1 },
        gm,
        hm,
    );
    st.run_to_completion();
    st
}

/// Plain Dijkstra over the same octile-weighted 8-neighbour graph, as an
/// independent shortest-path baseline.
fn baseline_cost(
    blocked: &[(usize, usize)],
    w: usize,
    h: usize,
    s: (usize, usize),
    e: (usize, usize),
) -> Option<u64> {
    let mut dist = vec![u64::MAX; w * h];
    let mut done = vec![false; w * h];
    dist[s.1 * w + s.0] = 0;
    loop {
        let mut best: Option<usize> = None;
        for i in 0..w * h {
            if !done[i] && dist[i] != u64::MAX && best.map_or(true, |b: usize| dist[i] < dist[b]) {
                best = Some(i);
            }
        }
        let u = match best {
            Some(u) => u,
            None => break,
        };
        done[u] = true;
        let (ux, uy) = (u % w, u / w);
        for dx in -1i64..=1 {
            for dy in -1i64..=1 {
                if dx == 0 && dy == 0 {
                    continue;
                }
                let nx = ux as i64 + dx;
                let ny = uy as i64 + dy;
                if nx < 0 || ny < 0 || nx >= w as i64 || ny >= h as i64 {
                    continue;
                }
                let (nx, ny) = (nx as usize, ny as usize);
                if blocked.contains(&(nx, ny)) {
                    continue;
                }
                let step: u64 = if dx != 0 && dy != 0 { 14 } else { 10 };
                let ni = ny * w + nx;
                if dist[u] + step < dist[ni] {
                    dist[ni] = dist[u] + step;
                }
            }
        }
    }
    let d = dist[e.1 * w + e.0];
    if d == u64::MAX {
        None
    } else {
        Some(d)
    }
}

fn end_cost(st: &SearchState) -> u64 {
    let e = st.end;
    st.cell(e.x, e.y).unwrap().g_cost
}

#[test]
fn open_grid_diagonal_path() {
    let st = run(&[], 5, 5, (0, 0), (4, 4), 1, 1);
    assert!(st.reached);
    assert!(st.end_discovered());
    assert_eq!(end_cost(&st), 56);
    let path = st.extract_path().unwrap();
    assert_eq!(path.len(), 5);
    assert_eq!(path[0], Coord { x: 0, y: 0 });
    assert_eq!(path[4], Coord { x: 4, y: 4 });
    for i in 1..path.len() {
        assert_eq!(path[i].x, path[i - 1].x + 1);
        assert_eq!(path[i].y, path[i - 1].y + 1);
    }
}

#[test]
fn blocked_diagonal_forces_detour() {
    let blocked = [(1, 1), (2, 2), (3, 3)];
    let st = run(&blocked, 5, 5, (0, 0), (4, 4), 1, 1);
    assert!(st.reached);
    assert!(st.end_discovered());
    let cost = end_cost(&st);
    assert!(cost > 56);
    assert_eq!(Some(cost), baseline_cost(&blocked, 5, 5, (0, 0), (4, 4)));
    let path = st.extract_path().unwrap();
    assert_eq!(path[0], Coord { x: 0, y: 0 });
    assert_eq!(*path.last().unwrap(), Coord { x: 4, y: 4 });
    for i in 1..path.len() {
        let dx = path[i].x.abs_diff(path[i - 1].x);
        let dy = path[i].y.abs_diff(path[i - 1].y);
        assert!(dx <= 1 && dy <= 1 && (dx, dy) != (0, 0));
        assert!(!blocked.contains(&(path[i].x, path[i].y)));
    }
}

#[test]
fn enclosed_start_terminates_without_path() {
    let blocked = [(1, 0), (0, 1), (1, 1)];
    let st = run(&blocked, 5, 5, (0, 0), (4, 4), 1, 1);
    assert!(st.reached);
    assert!(!st.end_discovered());
    assert!(st.extract_path().is_none());
    // only the enclosed start cell is ever expanded
    assert_eq!(st.visited_count, 1);
}

#[test]
fn matches_baseline_on_assorted_grids() {
    let cases: [&[(usize, usize)]; 4] = [
        &[(2, 0), (2, 1), (2, 2), (2, 3)],
        &[(1, 1), (1, 2), (1, 3), (3, 1), (3, 2), (3, 3)],
        &[(0, 3), (1, 3), (2, 3), (4, 1), (3, 1)],
        &[(1, 0), (1, 1), (3, 4), (3, 3), (3, 2), (1, 2)],
    ];
    for blocked in cases {
        let st = run(blocked, 5, 5, (0, 0), (4, 4), 1, 1);
        let base = baseline_cost(blocked, 5, 5, (0, 0), (4, 4));
        assert!(st.reached);
        match base {
            Some(c) => {
                assert!(st.end_discovered());
                assert_eq!(end_cost(&st), c);
            },
            None => assert!(!st.end_discovered()),
        }
    }
}

#[test]
fn reset_is_idempotent() {
    let mut a = SearchState::new(
        grid_with(&[(2, 2)], 4, 4),
        Coord { x: 0, y: 0 },
        Coord { x: 3, y: 3 },
        1,
        1,
    );
    let mut b = SearchState::new(
        grid_with(&[(2, 2)], 4, 4),
        Coord { x: 0, y: 0 },
        Coord { x: 3, y: 3 },
        1,
        1,
    );
    // run one of them, then reset both with identical arguments; reset the
    // second one twice
    a.run_to_completion();
    a.reset(grid_with(&[(2, 2)], 4, 4), Coord { x: 0, y: 0 }, Coord { x: 3, y: 3 }, 1, 1);
    b.reset(grid_with(&[(2, 2)], 4, 4), Coord { x: 0, y: 0 }, Coord { x: 3, y: 3 }, 1, 1);
    b.reset(grid_with(&[(2, 2)], 4, 4), Coord { x: 0, y: 0 }, Coord { x: 3, y: 3 }, 1, 1);
    assert_eq!(a.reached, b.reached);
    assert_eq!(a.visited_count, b.visited_count);
    for x in 0..4 {
        for y in 0..4 {
            assert_eq!(a.cell(x, y), b.cell(x, y));
        }
    }
    // only the start cell is discovered, at cost zero
    let c = a.cell(0, 0).unwrap();
    assert_eq!(c.g_cost, 0);
    assert!(!c.visited);
    for x in 0..4 {
        for y in 0..4 {
            if (x, y) != (0, 0) {
                assert!(a.cell(x, y).is_none());
            }
        }
    }
}

#[test]
fn identical_runs_are_identical() {
    let blocked = [(1, 1), (2, 2), (3, 3)];
    let mut a = SearchState::new(
        grid_with(&blocked, 5, 5),
        Coord { x: 0, y: 0 },
        Coord { x: 4, y: 4 },
        1,
        1,
    );
    let mut b = SearchState::new(
        grid_with(&blocked, 5, 5),
        Coord { x: 0, y: 0 },
        Coord { x: 4, y: 4 },
        1,
        1,
    );
    while !a.reached || !b.reached {
        a.advance();
        b.advance();
        for x in 0..5 {
            for y in 0..5 {
                assert_eq!(a.cell(x, y), b.cell(x, y));
                assert_eq!(a.status(x, y), b.status(x, y));
            }
        }
        assert_eq!(a.reached, b.reached);
    }
    assert_eq!(a.extract_path(), b.extract_path());
}

#[test]
fn heuristic_octile_values() {
    assert_eq!(heuristic(Coord { x: 0, y: 0 }, Coord { x: 4, y: 4 }), 56);
    assert_eq!(heuristic(Coord { x: 0, y: 0 }, Coord { x: 2, y: 5 }), 58);
    assert_eq!(heuristic(Coord { x: 2, y: 5 }, Coord { x: 0, y: 0 }), 58);
    assert_eq!(heuristic(Coord { x: 3, y: 3 }, Coord { x: 3, y: 3 }), 0);
    assert_eq!(heuristic(Coord { x: 7, y: 2 }, Coord { x: 7, y: 9 }), 70);
}

#[test]
fn grid_edits_round_trip() {
    let mut g = Grid::new(3, 2);
    assert_eq!(g.width(), 3);
    assert_eq!(g.height(), 2);
    for x in 0..3 {
        for y in 0..2 {
            assert!(!g.blocked(x, y));
        }
    }
    g.set_blocked(2, 1, true);
    assert!(g.blocked(2, 1));
    assert!(!g.blocked(1, 1));
    g.set_blocked(2, 1, false);
    assert!(!g.blocked(2, 1));
}

#[test]
fn g_multiplier_scales_costs() {
    let st = run(&[], 5, 5, (0, 0), (4, 4), 2, 1);
    assert!(st.reached);
    assert_eq!(end_cost(&st), 112);
    let st3 = run(&[], 5, 5, (0, 0), (4, 4), 3, 2);
    assert!(st3.reached);
    assert_eq!(end_cost(&st3), 168);
}

#[test]
fn status_reflects_search_progress() {
    let mut st = SearchState::new(
        Grid::new(3, 3),
        Coord { x: 0, y: 0 },
        Coord { x: 2, y: 2 },
        1,
        1,
    );
    assert_eq!(st.status(0, 0), CellStatus::Frontier);
    for x in 0..3 {
        for y in 0..3 {
            if (x, y) != (0, 0) {
                assert_eq!(st.status(x, y), CellStatus::Unknown);
            }
        }
    }
    st.advance();
    assert_eq!(st.status(0, 0), CellStatus::Visited);
    assert_eq!(st.status(1, 0), CellStatus::Frontier);
    assert_eq!(st.status(1, 1), CellStatus::Frontier);
    assert_eq!(st.status(0, 1), CellStatus::Frontier);
    assert_eq!(st.status(2, 2), CellStatus::Unknown);
}

#[test]
fn path_when_start_equals_end() {
    let st = run(&[], 3, 3, (1, 1), (1, 1), 1, 1);
    assert!(st.reached);
    assert!(st.end_discovered());
    let path = st.extract_path().unwrap();
    assert_eq!(path, vec![Coord { x: 1, y: 1 }]);
    assert_eq!(end_cost(&st), 0);
}

#[test]
fn no_path_before_any_step() {
    let st = SearchState::new(
        Grid::new(4, 4),
        Coord { x: 0, y: 0 },
        Coord { x: 3, y: 3 },
        1,
        1,
    );
    assert!(!st.reached);
    assert!(!st.end_discovered());
    assert!(st.extract_path().is_none());
}

#[test]
fn visited_costs_never_change() {
    // with the default multipliers an expanded cell's g_cost is final
    let blocked = [(1, 1), (2, 2), (3, 3), (1, 3)];
    let mut st = SearchState::new(
        grid_with(&blocked, 5, 5),
        Coord { x: 0, y: 0 },
        Coord { x: 4, y: 4 },
        1,
        1,
    );
    let mut frozen: Vec<Option<u64>> = vec![None; 25];
    while !st.reached {
        st.advance();
        for x in 0..5 {
            for y in 0..5 {
                if let Some(c) = st.cell(x, y) {
                    if c.visited {
                        match frozen[y * 5 + x] {
                            Some(g) => assert_eq!(g, c.g_cost),
                            None => frozen[y * 5 + x] = Some(c.g_cost),
                        }
                    }
                }
            }
        }
    }
}

#[test]
fn single_cell_grid() {
    let mut st = SearchState::new(
        Grid::new(1, 1),
        Coord { x: 0, y: 0 },
        Coord { x: 0, y: 0 },
        1,
        1,
    );
    st.run_to_completion();
    assert!(st.reached);
    assert!(st.end_discovered());
    assert_eq!(end_cost(&st), 0);
    assert_eq!(st.extract_path().unwrap(), vec![Coord { x: 0, y: 0 }]);
}

#[test]
fn non_square_grid_matches_baseline() {
    let blocked = [(2, 0), (2, 1), (4, 2), (4, 1)];
    let mut st = SearchState::new(
        grid_with(&blocked, 6, 3),
        Coord { x: 0, y: 0 },
        Coord { x: 5, y: 2 },
        1,
        1,
    );
    st.run_to_completion();
    assert!(st.reached);
    assert_eq!(
        Some(end_cost(&st)),
        baseline_cost(&blocked, 6, 3, (0, 0), (5, 2))
    );
}
