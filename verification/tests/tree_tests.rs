use std::collections::VecDeque;

use snake::arena::Arena;
use snake::arena::Coord;
use snake::arena::Dimensions;
use snake::arena::Direction;
use snake::arena::Snake;
use snake::blackboard::Blackboard;
use snake::blackboard::ShortestPathToFood;
use snake::tree::run_action;
use snake::tree::tick_find_path_to_food;
use snake::tree::tick_select_move;
use snake::tree::Action;
use snake::tree::plan_reverses;
use snake::tree::TickStatus;

fn c(x: i32, y: i32) -> Coord {
    Coord { x, y }
}

fn arena(food: Option<Coord>, head: Coord, body: &[Coord], direction: Direction) -> Arena {
    Arena {
        dim: Dimensions { rows: 5, cols: 5 },
        food,
        snake: Snake {
            head,
            body: body.iter().copied().collect::<VecDeque<Coord>>(),
            direction,
            dead: false,
        },
    }
}

#[test]
fn blackboard_starts_empty_and_resets() {
    let mut bb = Blackboard::new();
    assert!(bb.decided_move.is_none());
    assert!(bb.shortest_path_to_food.is_none());
    bb.decided_move = Some(Direction::Up);
    bb.shortest_path_to_food =
        Some(ShortestPathToFood { path: vec![c(0, 0)], first_direction: Direction::Up });
    bb.reset();
    assert!(bb.decided_move.is_none());
    assert!(bb.shortest_path_to_food.is_none());
}

#[test]
fn find_path_without_food_fails() {
    let a = arena(None, c(2, 2), &[], Direction::Right);
    let mut bb = Blackboard::new();
    assert_eq!(tick_find_path_to_food(&a, &mut bb), TickStatus::Failure);
    assert!(bb.decided_move.is_none());
}

#[test]
fn find_path_decides_first_step() {
    let a = arena(Some(c(0, 2)), c(2, 2), &[c(2, 1)], Direction::Right);
    let mut bb = Blackboard::new();
    assert_eq!(tick_find_path_to_food(&a, &mut bb), TickStatus::Success);
    assert_eq!(bb.decided_move, Some(Direction::Up));
    let sp = bb.shortest_path_to_food.as_ref().unwrap();
    assert_eq!(sp.first_direction, Direction::Up);
    assert_eq!(sp.path, vec![c(2, 2), c(1, 2), c(0, 2)]);
}

#[test]
fn find_path_around_the_body() {
    // the body blocks the way left; the route goes round it
    let a = arena(Some(c(2, 0)), c(2, 2), &[c(2, 1), c(3, 1)], Direction::Right);
    let mut bb = Blackboard::new();
    assert_eq!(tick_find_path_to_food(&a, &mut bb), TickStatus::Success);
    let sp = bb.shortest_path_to_food.as_ref().unwrap();
    assert_eq!(sp.path.len(), 5);
    assert_eq!(sp.path[1], c(1, 2));
    assert_eq!(bb.decided_move, Some(Direction::Up));
}

#[test]
fn find_path_when_walled_in_fails() {
    let a = arena(Some(c(0, 0)), c(4, 4), &[c(3, 4), c(3, 3), c(4, 3)], Direction::Right);
    let mut bb = Blackboard::new();
    assert_eq!(tick_find_path_to_food(&a, &mut bb), TickStatus::Failure);
    assert!(bb.shortest_path_to_food.is_none());
}

#[test]
fn plan_would_turn_back() {
    // a lone head heading right, with the food right behind it
    let a = arena(Some(c(2, 1)), c(2, 2), &[], Direction::Right);
    assert!(plan_reverses(&a));
    // heading up instead, the same plan is fine
    let b = arena(Some(c(2, 1)), c(2, 2), &[], Direction::Up);
    assert!(!plan_reverses(&b));
    let mut bb = Blackboard::new();
    assert_eq!(tick_find_path_to_food(&b, &mut bb), TickStatus::Success);
    assert_eq!(bb.decided_move, Some(Direction::Left));
}

#[test]
fn plan_without_food_never_turns_back() {
    let a = arena(None, c(2, 2), &[], Direction::Right);
    assert!(!plan_reverses(&a));
}

#[test]
fn plan_takes_the_first_of_equal_routes() {
    // the food at (0, 0) is two steps away, up then left or left then up;
    // up is tried first
    let a = arena(Some(c(0, 0)), c(1, 1), &[], Direction::Down);
    let mut bb = Blackboard::new();
    assert_eq!(tick_find_path_to_food(&a, &mut bb), TickStatus::Success);
    assert_eq!(bb.shortest_path_to_food.as_ref().unwrap().path, vec![c(1, 1), c(0, 1), c(0, 0)]);
    assert_eq!(bb.decided_move, Some(Direction::Up));
}

#[test]
fn select_move_takes_planned_step() {
    let a = arena(None, c(2, 2), &[], Direction::Right);
    let mut bb = Blackboard::new();
    bb.shortest_path_to_food =
        Some(ShortestPathToFood { path: vec![c(2, 2), c(3, 2)], first_direction: Direction::Down });
    assert_eq!(tick_select_move(&a, &mut bb), TickStatus::Success);
    assert_eq!(bb.decided_move, Some(Direction::Down));
}

#[test]
fn select_move_keeps_heading_without_plan() {
    let a = arena(None, c(2, 2), &[], Direction::Left);
    let mut bb = Blackboard::new();
    assert_eq!(tick_select_move(&a, &mut bb), TickStatus::Success);
    assert_eq!(bb.decided_move, Some(Direction::Left));
}

#[test]
fn run_action_dispatches() {
    let a = arena(Some(c(2, 4)), c(2, 2), &[], Direction::Right);
    let mut bb = Blackboard::new();
    assert_eq!(run_action(&a, &mut bb, Action::BbtRunning), TickStatus::Running);
    assert!(bb.decided_move.is_none());
    assert_eq!(run_action(&a, &mut bb, Action::FindPathToFood), TickStatus::Success);
    assert_eq!(bb.decided_move, Some(Direction::Right));
    bb.decided_move = None;
    assert_eq!(run_action(&a, &mut bb, Action::SelectMove), TickStatus::Success);
    assert_eq!(bb.decided_move, Some(Direction::Right));
}

#[test]
fn snake_with_body_never_turns_back() {
    // the cell behind the head is the body's first segment, so no route
    // starts there even when the food lies right behind the snake
    let a = arena(Some(c(2, 0)), c(2, 2), &[c(2, 1)], Direction::Right);
    let mut bb = Blackboard::new();
    assert_eq!(tick_find_path_to_food(&a, &mut bb), TickStatus::Success);
    assert_ne!(bb.decided_move, Some(Direction::Left));
    assert_eq!(bb.shortest_path_to_food.as_ref().unwrap().path.len(), 5);
}
