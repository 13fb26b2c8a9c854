use vstd::prelude::*;

use crate::arena::Dimensions;
use crate::arena::Arena;
use crate::arena::ArenaView;
use crate::arena::Coord;

verus! {

/// The character of a border cell.
pub open spec fn border_char() -> char {
    '#'
}

/// The character of the food.
pub open spec fn food_char() -> char {
    '\u{25CF}'
}

/// The character of the head.
pub open spec fn head_char() -> char {
    '\u{2588}'
}

/// The character of a body segment.
pub open spec fn body_char() -> char {
    '\u{2593}'
}

/// Cell `c` is drawn at row `x`, column `y` of the frame (the frame has a
/// border of one cell around the arena).
pub open spec fn drawn_at(c: Coord, x: int, y: int) -> bool {
    c.x + 1 == x && c.y + 1 == y
}

/// The empty frame: a border of `#` around blank cells.
pub open spec fn base_char(rows: int, cols: int, x: int, y: int) -> char {
    if x == 0 || y == 0 || x == rows + 1 || y == cols + 1 {
        border_char()
    } else {
        ' '
    }
}

/// The frame with the food drawn on it.
pub open spec fn food_layer(a: ArenaView, x: int, y: int) -> char {
    if a.food matches Some(f) && drawn_at(f, x, y) {
        food_char()
    } else {
        base_char(a.dim.rows as int, a.dim.cols as int, x, y)
    }
}

/// The character at row `x`, column `y` of the frame of `a` once the head
/// and the first `k` body segments are drawn: the body over the head over the
/// food over the border.
pub open spec fn frame_char(a: ArenaView, k: int, x: int, y: int) -> char {
    if exists|i: int| 0 <= i < k && drawn_at(#[trigger] a.snake.body[i], x, y) {
        body_char()
    } else if drawn_at(a.snake.head, x, y) {
        head_char()
    } else {
        food_layer(a, x, y)
    }
}

/// Cell `c` lands on the frame: inside the arena or on the far border.
pub open spec fn on_frame(dim: Dimensions, c: Coord) -> bool {
    0 <= c.x <= dim.rows && 0 <= c.y <= dim.cols
}

/// What drawing needs: every part of the snake and the food lands on the
/// frame, the food is not under the body, and the frame's size fits `usize`.
pub open spec fn can_draw(a: ArenaView) -> bool {
    &&& a.dim.rows + 2 <= usize::MAX
    &&& a.dim.cols + 2 <= usize::MAX
    &&& on_frame(a.dim, a.snake.head)
    &&& forall|i: int| 0 <= i < a.snake.body.len() ==> on_frame(a.dim, #[trigger] a.snake.body[i])
    &&& a.food matches Some(f) ==> on_frame(a.dim, f) && !a.snake.body.contains(f)
}

proof fn lemma_inside(a: ArenaView, c: Coord)
    requires
        on_frame(a.dim, c),
    ensures
        c.x as usize == c.x,
        c.y as usize == c.y,
{
}

fn set_cell(grid: &mut Vec<Vec<char>>, x: usize, y: usize, ch: char)
    requires
        x < old(grid)@.len(),
        y < old(grid)@[x as int]@.len(),
    ensures
        final(grid)@.len() == old(grid)@.len(),
        forall|i: int| 0 <= i < final(grid)@.len() && i != x ==> #[trigger] final(grid)@[i] == old(grid)@[i],
        final(grid)@[x as int]@ == old(grid)@[x as int]@.update(y as int, ch),
{
    grid[x].set(y, ch);
}

/// Where cell `c` is drawn in the frame: one row and one column further, for
/// the border.
pub fn shift(c: Coord) -> (r: (usize, usize))
    requires
        (c.x as usize) < usize::MAX,
        (c.y as usize) < usize::MAX,
    ensures
        r.0 == (c.x as usize) + 1,
        r.1 == (c.y as usize) + 1,
{
    (c.x as usize + 1, c.y as usize + 1)
}

/// The frame of the arena as a grid of characters, border included: row `x`,
/// column `y` shows the arena cell `(x - 1, y - 1)`.
pub fn draw_frame(arena: &Arena) -> (grid: Vec<Vec<char>>)
    requires
        can_draw(arena@),
    ensures
        grid@.len() == arena.dim.rows + 2,
        forall|x: int| 0 <= x < grid@.len() ==> (#[trigger] grid@[x])@.len() == arena.dim.cols + 2,
        forall|x: int, y: int|
            0 <= x < grid@.len() && 0 <= y < arena.dim.cols + 2 ==> #[trigger] grid@[x]@[y]
                == frame_char(arena@, arena.snake.body@.len() as int, x, y),
{
    let ghost a = arena@;
    let rows = arena.rows() as usize;
    let cols = arena.cols() as usize;
    let ghost nr = rows as int + 2;
    let ghost nc = cols as int + 2;

    // the grid, with the border drawn around it
    let mut grid: Vec<Vec<char>> = Vec::new();
    let mut x: usize = 0;
    while x < rows + 2
        invariant
            rows == a.dim.rows,
            cols == a.dim.cols,
            rows + 2 <= usize::MAX,
            cols + 2 <= usize::MAX,
            x <= rows + 2,
            grid@.len() == x,
            forall|i: int| 0 <= i < x ==> (#[trigger] grid@[i])@.len() == cols + 2,
            forall|i: int, j: int|
                0 <= i < x && 0 <= j < cols + 2 ==> #[trigger] grid@[i]@[j] == base_char(
                    rows as int,
                    cols as int,
                    i,
                    j,
                ),
        decreases rows + 2 - x,
    {
        let mut row: Vec<char> = Vec::new();
        let mut y: usize = 0;
        while y < cols + 2
            invariant
                rows == a.dim.rows,
                cols == a.dim.cols,
                rows + 2 <= usize::MAX,
                cols + 2 <= usize::MAX,
                x < rows + 2,
                y <= cols + 2,
                row@.len() == y,
                forall|j: int| 0 <= j < y ==> row@[j] == base_char(rows as int, cols as int, x as int, j),
            decreases cols + 2 - y,
        {
            if x == 0 || y == 0 || x == rows + 1 || y == cols + 1 {
                row.push('#');
            } else {
                row.push(' ');
            }
            y = y + 1;
        }
        grid.push(row);
        x = x + 1;
    }

    // add the food
    if let Some(f) = arena.food {
        proof {
            lemma_inside(a, f);
        }
        let (fx, fy) = shift(f);
        set_cell(&mut grid, fx, fy, '\u{25CF}');
    }
    assert forall|i: int, j: int|
        0 <= i < nr && 0 <= j < nc implies grid@[i]@.len() == nc && #[trigger] grid@[i]@[j] == food_layer(a, i, j) by {
    }

    // draw the snake
    proof {
        lemma_inside(a, a.snake.head);
    }
    let (hx, hy) = shift(arena.snake.head);
    set_cell(&mut grid, hx, hy, '\u{2588}');
    let n = arena.snake.body.len();
    let mut k: usize = 0;
    while k < n
        invariant
            a == arena@,
            can_draw(a),
            n == a.snake.body.len(),
            nr == a.dim.rows + 2,
            nc == a.dim.cols + 2,
            k <= n,
            grid@.len() == nr,
            forall|i: int| 0 <= i < nr ==> (#[trigger] grid@[i])@.len() == nc,
            forall|i: int, j: int|
                0 <= i < nr && 0 <= j < nc ==> #[trigger] grid@[i]@[j] == frame_char(a, k as int, i, j),
        decreases n - k,
    {
        let coord = arena.snake.body[k];
        proof {
            assert(on_frame(a.dim, a.snake.body[k as int]));
            lemma_inside(a, coord);
        }
        let (bx, by) = shift(coord);
        let ghost before = grid@;
        set_cell(&mut grid, bx, by, '\u{2593}');
        proof {
            assert(drawn_at(a.snake.body[k as int], bx as int, by as int));
            assert forall|i: int, j: int|
                0 <= i < nr && 0 <= j < nc implies #[trigger] grid@[i]@[j] == frame_char(a, k + 1, i, j) by {
                if i != bx || j != by {
                    if i == bx {
                        assert(grid@[i]@ == before[i]@.update(by as int, body_char()));
                    }
                    assert(grid@[i]@[j] == before[i]@[j]);
                    if exists|t: int| 0 <= t < k + 1 && drawn_at(#[trigger] a.snake.body[t], i, j) {
                        let t = choose|t: int| 0 <= t < k + 1 && drawn_at(#[trigger] a.snake.body[t], i, j);
                        assert(t < k);
                    }
                } else {
                    assert(grid@[i]@[j] == body_char());
                }
            }
            assert forall|i: int| 0 <= i < nr implies (#[trigger] grid@[i])@.len() == nc by {
                assert(before[i]@.len() == nc);
            }
        }
        k = k + 1;
    }
    grid
}

} // verus!
