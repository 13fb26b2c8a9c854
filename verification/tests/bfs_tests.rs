use snake::arena::Coord;
use snake::arena::Dimensions;
use snake::bfs::bfs;

fn c(x: i32, y: i32) -> Coord {
    Coord { x, y }
}

fn is_route(p: &[Coord], start: Coord, end: Coord, dim: Dimensions, obstacles: &[Coord]) -> bool {
    if p.is_empty() || p[0] != start || p[p.len() - 1] != end {
        return false;
    }
    for w in p.windows(2) {
        if (w[0].x - w[1].x).abs() + (w[0].y - w[1].y).abs() != 1 {
            return false;
        }
    }
    p[1..].iter().all(|q| !dim.check_oob(q) && !obstacles.contains(q))
}

#[test]
fn straight_line() {
    let dim = Dimensions { rows: 5, cols: 5 };
    let p = bfs(c(2, 0), c(2, 4), dim, &[]);
    assert_eq!(p, vec![c(2, 0), c(2, 1), c(2, 2), c(2, 3), c(2, 4)]);
}

#[test]
fn neighbouring_cells() {
    let dim = Dimensions { rows: 3, cols: 3 };
    assert_eq!(bfs(c(1, 1), c(0, 1), dim, &[]), vec![c(1, 1), c(0, 1)]);
}

#[test]
fn ties_follow_the_neighbour_order() {
    // both (0, 1) and (1, 0) lead to (1, 1) in two steps; up is tried before
    // right, and the first cell to reach (1, 1) is its parent
    let dim = Dimensions { rows: 2, cols: 2 };
    assert_eq!(bfs(c(0, 0), c(1, 1), dim, &[]), vec![c(0, 0), c(0, 1), c(1, 1)]);
}

#[test]
fn around_a_wall() {
    let dim = Dimensions { rows: 3, cols: 3 };
    let wall = [c(0, 1), c(1, 1)];
    let p = bfs(c(0, 0), c(0, 2), dim, &wall);
    assert_eq!(p.len(), 7);
    assert!(is_route(&p, c(0, 0), c(0, 2), dim, &wall));
    assert_eq!(p, vec![c(0, 0), c(1, 0), c(2, 0), c(2, 1), c(2, 2), c(1, 2), c(0, 2)]);
}

#[test]
fn walled_off_gives_empty() {
    let dim = Dimensions { rows: 3, cols: 3 };
    let wall = [c(0, 1), c(1, 1), c(2, 1)];
    assert!(bfs(c(0, 0), c(0, 2), dim, &wall).is_empty());
}

#[test]
fn end_outside_gives_empty() {
    let dim = Dimensions { rows: 3, cols: 3 };
    assert!(bfs(c(0, 0), c(0, 3), dim, &[]).is_empty());
}

#[test]
fn start_outside_may_step_in() {
    // the start itself is never checked against the arena
    let dim = Dimensions { rows: 3, cols: 3 };
    assert_eq!(bfs(c(-1, 0), c(1, 0), dim, &[]), vec![c(-1, 0), c(0, 0), c(1, 0)]);
}

#[test]
fn start_on_an_obstacle() {
    let dim = Dimensions { rows: 1, cols: 3 };
    assert_eq!(bfs(c(0, 0), c(0, 2), dim, &[c(0, 0)]), vec![c(0, 0), c(0, 1), c(0, 2)]);
}

#[test]
fn shortest_among_many() {
    let dim = Dimensions { rows: 6, cols: 7 };
    let obstacles = [c(1, 1), c(1, 2), c(1, 3), c(2, 3), c(3, 3), c(4, 1), c(4, 2)];
    let p = bfs(c(0, 0), c(5, 5), dim, &obstacles);
    assert!(is_route(&p, c(0, 0), c(5, 5), dim, &obstacles));
    // Manhattan distance is 10, and a detour-free route exists
    assert_eq!(p.len(), 11);
}
