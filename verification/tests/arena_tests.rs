use std::collections::VecDeque;

use snake::arena::Arena;
use snake::arena::Coord;
use snake::arena::Dimensions;
use snake::arena::Direction;
use snake::arena::Snake;
use snake::blackboard::Blackboard;

fn c(x: i32, y: i32) -> Coord {
    Coord { x, y }
}

fn snake(head: Coord, body: &[Coord], direction: Direction) -> Snake {
    Snake { head, body: body.iter().copied().collect::<VecDeque<Coord>>(), direction, dead: false }
}

fn arena(rows: u32, cols: u32, food: Option<Coord>, s: Snake) -> Arena {
    Arena { dim: Dimensions { rows, cols }, food, snake: s }
}

fn decided(d: Direction) -> Blackboard {
    let mut bb = Blackboard::new();
    bb.decided_move = Some(d);
    bb
}

#[test]
fn move_in_each_direction() {
    let p = c(5, 7);
    assert_eq!(p.move_in(Direction::Up), c(4, 7));
    assert_eq!(p.move_in(Direction::Down), c(6, 7));
    assert_eq!(p.move_in(Direction::Left), c(5, 6));
    assert_eq!(p.move_in(Direction::Right), c(5, 8));
}

#[test]
fn move_in_may_leave_the_arena() {
    assert_eq!(c(0, 0).move_in(Direction::Up), c(-1, 0));
    assert_eq!(c(0, 0).move_in(Direction::Left), c(0, -1));
}

#[test]
fn coord_from_pair() {
    let p: Coord = (3, -4).into();
    assert_eq!(p, c(3, -4));
}

#[test]
fn direction_to_each_neighbor() {
    let p = c(5, 7);
    assert_eq!(p.direction_to(c(4, 7)), Direction::Up);
    assert_eq!(p.direction_to(c(6, 7)), Direction::Down);
    assert_eq!(p.direction_to(c(5, 6)), Direction::Left);
    assert_eq!(p.direction_to(c(5, 8)), Direction::Right);
}

#[test]
fn direction_to_undoes_move_in() {
    let p = c(-3, 12);
    for d in Direction::enumerate() {
        assert_eq!(p.direction_to(p.move_in(d)), d);
    }
}

#[test]
fn neighbors_are_listed_up_right_down_left() {
    assert_eq!(c(2, 2).neighbors(), vec![c(1, 2), c(2, 3), c(3, 2), c(2, 1)]);
}

#[test]
fn enumerate_lists_four_directions() {
    assert_eq!(
        Direction::enumerate(),
        vec![Direction::Up, Direction::Right, Direction::Down, Direction::Left]
    );
}

#[test]
fn labels_are_capitalised() {
    assert_eq!(Direction::Up.label(), "UP");
    assert_eq!(Direction::Down.label(), "DOWN");
    assert_eq!(Direction::Left.label(), "LEFT");
    assert_eq!(Direction::Right.label(), "RIGHT");
}

#[test]
fn opposite_twice_is_identity() {
    for d in Direction::enumerate() {
        assert_eq!(d.opposite().opposite(), d);
    }
    assert_eq!(Direction::Up.opposite(), Direction::Down);
    assert_eq!(Direction::Left.opposite(), Direction::Right);
}

#[test]
fn turns_undo_each_other() {
    assert_eq!(Direction::Up._clockwise(), Direction::Left);
    assert_eq!(Direction::Up._counterclockwise(), Direction::Right);
    for d in Direction::enumerate() {
        assert_eq!(d._clockwise()._counterclockwise(), d);
        assert_eq!(d._counterclockwise()._clockwise(), d);
        assert_eq!(d._clockwise()._clockwise(), d.opposite());
        assert_eq!(d._clockwise()._clockwise()._clockwise()._clockwise(), d);
    }
}

#[test]
fn move_back_returns_home() {
    let p = c(9, -2);
    for d in Direction::enumerate() {
        assert_eq!(p.move_in(d).move_in(d.opposite()), p);
    }
}

#[test]
fn check_oob_edges() {
    let dim = Dimensions { rows: 3, cols: 4 };
    assert!(!dim.check_oob(&c(0, 0)));
    assert!(!dim.check_oob(&c(2, 3)));
    assert!(dim.check_oob(&c(3, 0)));
    assert!(dim.check_oob(&c(0, 4)));
    assert!(dim.check_oob(&c(-1, 0)));
    assert!(dim.check_oob(&c(0, -1)));
}

#[test]
fn check_oob_with_rows_beyond_i32() {
    // `rows as i32` wraps to a negative number: no cell is inside
    let dim = Dimensions { rows: 3_000_000_000, cols: 4 };
    assert!(dim.check_oob(&c(0, 0)));
    assert!(dim.check_oob(&c(5, 1)));
}

#[test]
fn move_forward_shifts_the_body() {
    let mut s = snake(c(2, 2), &[c(2, 1), c(2, 0)], Direction::Right);
    s.move_forward();
    assert_eq!(s.head, c(2, 3));
    assert_eq!(s.body, VecDeque::from(vec![c(2, 2), c(2, 1)]));
}

#[test]
fn move_forward_of_a_lone_head() {
    let mut s = snake(c(2, 2), &[], Direction::Up);
    s.move_forward();
    assert_eq!(s.head, c(1, 2));
    assert!(s.body.is_empty());
}

#[test]
fn turn_sets_direction_only() {
    let mut s = snake(c(2, 2), &[c(2, 1)], Direction::Right);
    s.turn(Direction::Down);
    assert_eq!(s.direction, Direction::Down);
    assert_eq!(s.head, c(2, 2));
}

#[test]
fn grow_lone_head() {
    let mut s = snake(c(4, 4), &[], Direction::Right);
    assert_eq!(s.grow(), (c(4, 4), Direction::Left));
}

#[test]
fn grow_one_segment() {
    let mut s = snake(c(4, 4), &[c(5, 4)], Direction::Up);
    assert_eq!(s.grow(), (c(5, 4), Direction::Down));
}

#[test]
fn grow_longer_body() {
    let mut s = snake(c(4, 4), &[c(4, 3), c(5, 3), c(5, 2)], Direction::Right);
    assert_eq!(s.grow(), (c(5, 2), Direction::Left));
    assert_eq!(s.body.len(), 3);
}

#[test]
fn new_arena_centre() {
    let a = Arena::new(20, 40);
    assert_eq!(a.snake.head, c(10, 20));
    assert!(a.snake.body.is_empty());
    assert_eq!(a.snake.direction, Direction::Right);
    assert!(!a.snake.dead);
    assert_eq!(a.rows(), 20);
    assert_eq!(a.cols(), 40);
    if let Some(f) = a.food {
        assert!(f.x >= 0 && f.x < 20 && f.y >= 0 && f.y < 40);
    }
}

#[test]
fn new_arena_odd_size() {
    let a = Arena::new(5, 3);
    assert_eq!(a.snake.head, c(2, 1));
}

#[test]
fn new_arena_one_cell() {
    // the only cell is free of body and food: the food goes there
    let a = Arena::new(1, 1);
    assert_eq!(a.food, Some(c(0, 0)));
}

#[test]
fn regen_food_avoids_body_and_old_food() {
    let mut a = arena(1, 3, Some(c(0, 0)), snake(c(0, 2), &[c(0, 1)], Direction::Right));
    a.regen_food();
    // (0, 0) held the food and (0, 1) the body: only (0, 2) is allowed
    assert!(a.food.is_none() || a.food == Some(c(0, 2)));
    for _ in 0..50 {
        let mut b = arena(1, 3, Some(c(0, 0)), snake(c(0, 2), &[c(0, 1)], Direction::Right));
        b.regen_food();
        assert_ne!(b.food, Some(c(0, 0)));
        assert_ne!(b.food, Some(c(0, 1)));
    }
}

#[test]
fn regen_food_with_no_free_cell() {
    let mut a = arena(1, 2, Some(c(0, 0)), snake(c(0, 0), &[c(0, 1)], Direction::Right));
    a.regen_food();
    assert_eq!(a.food, None);
}

#[test]
fn try_place_food_outcomes() {
    let mut a = arena(4, 4, None, snake(c(1, 1), &[c(1, 0)], Direction::Right));
    assert!(!a.try_place_food(Some(c(2, 2)), c(2, 2)));
    assert_eq!(a.food, None);
    assert!(!a.try_place_food(None, c(1, 0)));
    assert_eq!(a.food, None);
    assert!(a.try_place_food(Some(c(2, 2)), c(3, 3)));
    assert_eq!(a.food, Some(c(3, 3)));
}

#[test]
fn collision_body_and_boundary() {
    let a = arena(4, 4, None, snake(c(1, 1), &[c(1, 0)], Direction::Right));
    assert!(a.collision(&c(1, 0)));
    assert!(a.collision(&c(4, 1)));
    assert!(a.collision(&c(-1, 1)));
    assert!(!a.collision(&c(2, 2)));
    // the head itself is not part of the body
    assert!(!a.collision(&c(1, 1)));
}

#[test]
fn reconcile_into_wall_kills() {
    let mut a = arena(4, 4, None, snake(c(0, 1), &[c(1, 1)], Direction::Up));
    a.reconcile(&decided(Direction::Up));
    assert!(a.snake.dead);
    assert_eq!(a.snake.head, c(0, 1));
    assert_eq!(a.snake.body, VecDeque::from(vec![c(1, 1)]));
}

#[test]
fn reconcile_into_body_kills() {
    let mut a = arena(
        5,
        5,
        None,
        snake(c(2, 2), &[c(2, 1), c(3, 1), c(3, 2), c(3, 3)], Direction::Right),
    );
    a.reconcile(&decided(Direction::Down));
    assert!(a.snake.dead);
}

#[test]
fn reconcile_moves_and_turns() {
    let mut a = arena(5, 5, Some(c(0, 0)), snake(c(2, 2), &[c(2, 1)], Direction::Right));
    a.reconcile(&decided(Direction::Down));
    assert!(!a.snake.dead);
    assert_eq!(a.snake.head, c(3, 2));
    assert_eq!(a.snake.direction, Direction::Down);
    assert_eq!(a.snake.body, VecDeque::from(vec![c(2, 2)]));
    assert_eq!(a.food, Some(c(0, 0)));
}

#[test]
fn reconcile_eats_and_grows_in_line() {
    let mut a = arena(5, 5, Some(c(2, 3)), snake(c(2, 2), &[c(2, 1)], Direction::Right));
    a.reconcile(&decided(Direction::Right));
    assert_eq!(a.snake.head, c(2, 3));
    // tail was (2, 2) after the move, coming from (2, 3): grows to (2, 1)
    assert_eq!(a.snake.body, VecDeque::from(vec![c(2, 2), c(2, 1)]));
    if let Some(f) = a.food {
        assert_ne!(f, c(2, 3));
        assert!(!a.snake.body.contains(&f));
    }
}

#[test]
fn reconcile_lone_head_eats() {
    let mut a = arena(5, 5, Some(c(2, 3)), snake(c(2, 2), &[], Direction::Right));
    a.reconcile(&decided(Direction::Right));
    // tail is the head; it grows opposite to the heading
    assert_eq!(a.snake.body, VecDeque::from(vec![c(2, 2)]));
}

#[test]
fn reconcile_grows_to_first_free_neighbor() {
    // after the move the tail is at (0, 0) and would continue left, out of
    // the arena; of its neighbours (up, right, down, left) up is outside and
    // right holds the head, which is not part of the body, so the tail grows
    // there
    let mut a = arena(2, 3, Some(c(0, 1)), snake(c(0, 0), &[c(1, 0)], Direction::Up));
    a.reconcile(&decided(Direction::Right));
    assert_eq!(a.snake.head, c(0, 1));
    assert_eq!(a.snake.body, VecDeque::from(vec![c(0, 0), c(0, 1)]));
}

fn connected(a: &Arena) -> bool {
    let mut segs = vec![a.snake.head];
    segs.extend(a.snake.body.iter().copied());
    segs.windows(2).all(|w| (w[0].x - w[1].x).abs() + (w[0].y - w[1].y).abs() == 1)
}

#[test]
fn reconciling_keeps_the_snake_connected() {
    let mut a = arena(6, 6, Some(c(2, 4)), snake(c(2, 2), &[c(2, 1), c(2, 0)], Direction::Right));
    let moves = [
        Direction::Right,
        Direction::Right,
        Direction::Down,
        Direction::Down,
        Direction::Left,
        Direction::Left,
        Direction::Up,
    ];
    for d in moves {
        let before = a.snake.body.len();
        let ate = a.food == Some(a.snake.head.move_in(d));
        a.reconcile(&decided(d));
        assert!(connected(&a));
        assert!(a.snake.body.len() == before || (ate && a.snake.body.len() == before + 1));
        if let Some(f) = a.food {
            if ate {
                assert!(!a.snake.body.contains(&f));
            }
        }
    }
}

#[test]
fn coord_text() {
    assert_eq!(c(3, -4).to_text(), "(3, -4)");
    assert_eq!(c(0, 0).to_text(), "(0, 0)");
    assert_eq!(c(10, 205).to_text(), "(10, 205)");
    assert_eq!(c(i32::MIN, i32::MAX).to_text(), "(-2147483648, 2147483647)");
}

#[test]
fn reconciling_an_empty_arena_keeps_the_chain() {
    // no cell is inside a 0 by 0 arena: every move collides and the snake
    // dies where it is, still one chain
    let mut a = arena(0, 0, None, snake(c(0, 0), &[c(0, 1), c(1, 1)], Direction::Left));
    a.reconcile(&decided(Direction::Up));
    assert!(a.snake.dead);
    assert!(connected(&a));
}
