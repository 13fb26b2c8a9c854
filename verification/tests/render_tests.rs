use std::collections::VecDeque;

use snake::arena::Arena;
use snake::arena::Coord;
use snake::arena::Dimensions;
use snake::arena::Direction;
use snake::arena::Snake;
use snake::render::draw_frame;
use snake::render::shift;

fn c(x: i32, y: i32) -> Coord {
    Coord { x, y }
}

#[test]
fn shift_moves_past_the_border() {
    assert_eq!(shift(c(0, 0)), (1, 1));
    assert_eq!(shift(c(3, 7)), (4, 8));
}

#[test]
fn frame_of_a_small_arena() {
    let a = Arena {
        dim: Dimensions { rows: 2, cols: 3 },
        food: Some(c(1, 2)),
        snake: Snake {
            head: c(0, 1),
            body: VecDeque::from(vec![c(0, 0), c(1, 0)]),
            direction: Direction::Right,
            dead: false,
        },
    };
    let grid = draw_frame(&a);
    let lines: Vec<String> = grid.iter().map(|r| r.iter().collect::<String>()).collect();
    assert_eq!(
        lines,
        vec![
            "#####".to_string(),
            "#\u{2593}\u{2588} #".to_string(),
            "#\u{2593} \u{25CF}#".to_string(),
            "#####".to_string(),
        ]
    );
}

#[test]
fn frame_without_food() {
    let a = Arena {
        dim: Dimensions { rows: 1, cols: 1 },
        food: None,
        snake: Snake { head: c(0, 0), body: VecDeque::new(), direction: Direction::Up, dead: false },
    };
    let grid = draw_frame(&a);
    assert_eq!(grid.len(), 3);
    assert_eq!(grid[1], vec!['#', '\u{2588}', '#']);
}

#[test]
fn segment_on_the_far_border_is_drawn_over_it() {
    // a cell one past the last row is drawn on the bottom border
    let a = Arena {
        dim: Dimensions { rows: 1, cols: 1 },
        food: None,
        snake: Snake {
            head: c(0, 0),
            body: VecDeque::from(vec![c(1, 0)]),
            direction: Direction::Up,
            dead: false,
        },
    };
    let grid = draw_frame(&a);
    assert_eq!(grid[2], vec!['#', '\u{2593}', '#']);
}
