use std::collections::VecDeque;

use rand::Rng;
use vstd::prelude::*;

use crate::blackboard::Blackboard;

verus! {

/// A cell of the grid: `x` is the row, `y` the column.
/// Negative coordinates are convenient for detecting collision with the
/// left/upper boundary.
#[derive(Clone, Copy, Debug, PartialEq, Eq, Hash, Structural)]
pub struct Coord {
    pub x: i32,
    pub y: i32,
}

/// The four directions in which the snake can move.
#[derive(Clone, Copy, Debug, PartialEq, Eq, Structural)]
pub enum Direction {
    Up,
    Down,
    Left,
    Right,
}

/// Whether moving `c` one step in `d` stays within the range of `i32`.
pub open spec fn move_fits(c: Coord, d: Direction) -> bool {
    match d {
        Direction::Up => c.x > i32::MIN,
        Direction::Down => c.x < i32::MAX,
        Direction::Left => c.y > i32::MIN,
        Direction::Right => c.y < i32::MAX,
    }
}

/// Whether a step in every direction from `c` stays within the range of `i32`.
pub open spec fn interior(c: Coord) -> bool {
    i32::MIN < c.x < i32::MAX && i32::MIN < c.y < i32::MAX
}

/// The cell one step from `c` in direction `d`: up and down change the row,
/// left and right the column.
pub open spec fn moved(c: Coord, d: Direction) -> Coord {
    match d {
        Direction::Up => Coord { x: (c.x - 1) as i32, y: c.y },
        Direction::Down => Coord { x: (c.x + 1) as i32, y: c.y },
        Direction::Left => Coord { x: c.x, y: (c.y - 1) as i32 },
        Direction::Right => Coord { x: c.x, y: (c.y + 1) as i32 },
    }
}

pub open spec fn abs(i: int) -> int {
    if i < 0 { -i } else { i }
}

/// Two cells are adjacent when their Manhattan distance is one.
pub open spec fn adjacent(a: Coord, b: Coord) -> bool {
    abs(a.x - b.x) + abs(a.y - b.y) == 1
}

/// The direction in which `b` lies as seen from `a`, for adjacent cells.
pub open spec fn dir_between(a: Coord, b: Coord) -> Direction {
    if b.x == a.x - 1 {
        Direction::Up
    } else if b.x == a.x + 1 {
        Direction::Down
    } else if b.y == a.y - 1 {
        Direction::Left
    } else {
        Direction::Right
    }
}

/// The order in which directions are listed: up, right, down, left.
pub open spec fn direction_order() -> Seq<Direction> {
    seq![Direction::Up, Direction::Right, Direction::Down, Direction::Left]
}

pub open spec fn spec_opposite(d: Direction) -> Direction {
    match d {
        Direction::Up => Direction::Down,
        Direction::Down => Direction::Up,
        Direction::Left => Direction::Right,
        Direction::Right => Direction::Left,
    }
}

pub open spec fn spec_clockwise(d: Direction) -> Direction {
    match d {
        Direction::Up => Direction::Left,
        Direction::Left => Direction::Down,
        Direction::Down => Direction::Right,
        Direction::Right => Direction::Up,
    }
}

pub open spec fn spec_counterclockwise(d: Direction) -> Direction {
    match d {
        Direction::Up => Direction::Right,
        Direction::Right => Direction::Down,
        Direction::Down => Direction::Left,
        Direction::Left => Direction::Up,
    }
}

/// What `direction_to` needs so that none of the steps it tries leaves the
/// range of `i32`: it tries up, right, down and left in that order and stops
/// at the one that reaches `adj`.
pub open spec fn direction_to_fits(c: Coord, adj: Coord) -> bool {
    &&& adjacent(c, adj)
    &&& c.x > i32::MIN
    &&& (adj.x == c.x + 1 || adj.y == c.y - 1) ==> c.y < i32::MAX
    &&& adj.y == c.y - 1 ==> c.x < i32::MAX
}

/// Turning to the opposite direction twice gives the direction back.
pub proof fn lemma_opposite_involution(d: Direction)
    ensures
        spec_opposite(spec_opposite(d)) == d,
{
}

/// Clockwise and counterclockwise turns undo each other; two clockwise turns
/// face the opposite way, and four face the start again.
pub proof fn lemma_turns(d: Direction)
    ensures
        spec_counterclockwise(spec_clockwise(d)) == d,
        spec_clockwise(spec_counterclockwise(d)) == d,
        spec_clockwise(spec_clockwise(d)) == spec_opposite(d),
        spec_clockwise(spec_clockwise(spec_clockwise(spec_clockwise(d)))) == d,
{
}

/// A step followed by a step in the opposite direction returns to the cell
/// it started from.
pub proof fn lemma_move_back(c: Coord, d: Direction)
    requires
        move_fits(c, d),
    ensures
        move_fits(moved(c, d), spec_opposite(d)),
        moved(moved(c, d), spec_opposite(d)) == c,
{
}

/// From a cell that can step anywhere, the direction to the cell one step
/// away in `d` is `d`, and `direction_to` may be asked for it.
pub proof fn lemma_direction_to_moved(c: Coord, d: Direction)
    requires
        interior(c),
    ensures
        direction_to_fits(c, moved(c, d)),
        dir_between(c, moved(c, d)) == d,
{
}

/// The four neighbours of a cell are exactly the cells adjacent to it.
pub proof fn lemma_neighbors_adjacent(c: Coord, w: Coord)
    requires
        interior(c),
    ensures
        neighbor_cells(c).contains(w) <==> adjacent(c, w),
{
    let ns = neighbor_cells(c);
    if adjacent(c, w) {
        let d = dir_between(c, w);
        match d {
            Direction::Up => assert(ns[0] == w),
            Direction::Right => assert(ns[1] == w),
            Direction::Down => assert(ns[2] == w),
            Direction::Left => assert(ns[3] == w),
        }
    }
    if ns.contains(w) {
        let k = choose|k: int| 0 <= k < ns.len() && ns[k] == w;
        assert(ns[k] == moved(c, direction_order()[k]));
    }
}

/// The character of the decimal digit `d`.
pub open spec fn digit_char(d: int) -> char {
    if d == 0 {
        '0'
    } else if d == 1 {
        '1'
    } else if d == 2 {
        '2'
    } else if d == 3 {
        '3'
    } else if d == 4 {
        '4'
    } else if d == 5 {
        '5'
    } else if d == 6 {
        '6'
    } else if d == 7 {
        '7'
    } else if d == 8 {
        '8'
    } else {
        '9'
    }
}

/// The decimal digits of `n`, most significant first.
pub open spec fn decimal(n: nat) -> Seq<char>
    decreases n,
{
    if n < 10 {
        seq![digit_char(n as int)]
    } else {
        decimal(n / 10).push(digit_char((n % 10) as int))
    }
}

/// `v` in decimal, with a minus sign when negative.
pub open spec fn int_text(v: int) -> Seq<char> {
    if v < 0 {
        seq!['-'] + decimal((-v) as nat)
    } else {
        decimal(v as nat)
    }
}

/// How a cell is shown: `(x, y)`.
pub open spec fn coord_text(c: Coord) -> Seq<char> {
    seq!['('] + int_text(c.x as int) + seq![',', ' '] + int_text(c.y as int) + seq![')']
}

fn digit_str(d: u64) -> (s: &'static str)
    requires
        d < 10,
    ensures
        s@ == seq![digit_char(d as int)],
{
    proof {
        reveal_strlit("0");
        reveal_strlit("1");
        reveal_strlit("2");
        reveal_strlit("3");
        reveal_strlit("4");
        reveal_strlit("5");
        reveal_strlit("6");
        reveal_strlit("7");
        reveal_strlit("8");
        reveal_strlit("9");
    }
    match d {
        0 => "0",
        1 => "1",
        2 => "2",
        3 => "3",
        4 => "4",
        5 => "5",
        6 => "6",
        7 => "7",
        8 => "8",
        _ => "9",
    }
}

fn push_decimal(s: &mut String, n: u64)
    ensures
        final(s)@ == old(s)@ + decimal(n as nat),
    decreases n,
{
    if n >= 10 {
        push_decimal(s, n / 10);
    }
    s.append(digit_str(n % 10));
    proof {
        if n >= 10 {
            assert(old(s)@ + decimal(n as nat) =~= old(s)@ + decimal((n / 10) as nat) + seq![digit_char((n % 10) as int)]);
        } else {
            assert(decimal(n as nat) == seq![digit_char(n as int)]);
        }
    }
}

fn push_int(s: &mut String, v: i32)
    ensures
        final(s)@ == old(s)@ + int_text(v as int),
{
    if v < 0 {
        proof {
            reveal_strlit("-");
        }
        s.append("-");
        let magnitude: u64 = (-(v as i64)) as u64;
        push_decimal(s, magnitude);
        assert(final(s)@ =~= old(s)@ + int_text(v as int));
    } else {
        push_decimal(s, v as u64);
    }
}

impl From<(i32, i32)> for Coord {
    fn from(value: (i32, i32)) -> (c: Coord) {
        Coord { x: value.0, y: value.1 }
    }
}

impl vstd::std_specs::convert::FromSpecImpl<(i32, i32)> for Coord {
    open spec fn obeys_from_spec() -> bool {
        true
    }

    open spec fn from_spec(v: (i32, i32)) -> Coord {
        Coord { x: v.0, y: v.1 }
    }
}

impl Coord {
    /// The cell as it is shown: `(x, y)`.
    pub fn to_text(&self) -> (s: String)
        ensures
            s@ == coord_text(*self),
    {
        proof {
            reveal_strlit("(");
            reveal_strlit(", ");
            reveal_strlit(")");
        }
        let mut s = String::from_str("(");
        push_int(&mut s, self.x);
        s.append(", ");
        push_int(&mut s, self.y);
        s.append(")");
        assert(s@ =~= coord_text(*self));
        s
    }

    /// The cell one step away in `dir`.
    pub fn move_in(&self, dir: Direction) -> (after: Coord)
        requires
            move_fits(*self, dir),
        ensures
            after == moved(*self, dir),
    {
        let mut after = *self;
        match dir {
            Direction::Up => after.x = after.x - 1,
            Direction::Down => after.x = after.x + 1,
            Direction::Left => after.y = after.y - 1,
            Direction::Right => after.y = after.y + 1,
        };
        after
    }

    /// The direction in which `adj`, a cell adjacent to `self`, lies.
    pub fn direction_to(&self, adj: Coord) -> (dir: Direction)
        requires
            direction_to_fits(*self, adj),
        ensures
            moved(*self, dir) == adj,
            dir == dir_between(*self, adj),
    {
        let dx: i32 = self.x - adj.x;
        let dy: i32 = self.y - adj.y;
        let ax: i32 = if dx < 0 { -dx } else { dx };
        let ay: i32 = if dy < 0 { -dy } else { dy };
        assert(ax + ay == 1);
        let dirs = Direction::enumerate();
        let mut i: usize = 0;
        while i < 3
            invariant
                i <= 3,
                dirs@ == direction_order(),
                direction_to_fits(*self, adj),
                forall|j: int| 0 <= j < i ==> moved(*self, #[trigger] dirs@[j]) != adj,
            decreases 3 - i,
        {
            let dir = dirs[i];
            if adj == self.move_in(dir) {
                return dir;
            }
            i = i + 1;
        }
        let last = dirs[3];
        let _ = self.move_in(last);
        last
    }

    /// The four cells adjacent to `self`, listed up, right, down, left.
    pub fn neighbors(&self) -> (ns: Vec<Coord>)
        requires
            interior(*self),
        ensures
            ns@ == direction_order().map_values(|d: Direction| moved(*self, d)),
    {
        let dirs = Direction::enumerate();
        let mut ns: Vec<Coord> = Vec::new();
        let mut i: usize = 0;
        while i < dirs.len()
            invariant
                i <= dirs.len(),
                dirs@ == direction_order(),
                interior(*self),
                ns@ == dirs@.take(i as int).map_values(|d: Direction| moved(*self, d)),
            decreases dirs.len() - i,
        {
            ns.push(self.move_in(dirs[i]));
            assert(dirs@.take(i + 1) == dirs@.take(i as int).push(dirs@[i as int]));
            i = i + 1;
        }
        assert(dirs@.take(4) == dirs@);
        ns
    }
}

impl Direction {
    /// All four directions: up, right, down, left.
    pub fn enumerate() -> (v: Vec<Direction>)
        ensures
            v@ == direction_order(),
    {
        vec![Direction::Up, Direction::Right, Direction::Down, Direction::Left]
    }

    /// The name of the direction in capitals, as it is shown to the player.
    pub fn label(&self) -> (s: &'static str)
        ensures
            s@ == match *self {
                Direction::Up => "UP"@,
                Direction::Down => "DOWN"@,
                Direction::Left => "LEFT"@,
                Direction::Right => "RIGHT"@,
            },
    {
        match self {
            Direction::Up => "UP",
            Direction::Down => "DOWN",
            Direction::Left => "LEFT",
            Direction::Right => "RIGHT",
        }
    }

    pub fn _clockwise(&self) -> (d: Direction)
        ensures
            d == spec_clockwise(*self),
    {
        match self {
            Direction::Up => Direction::Left,
            Direction::Left => Direction::Down,
            Direction::Down => Direction::Right,
            Direction::Right => Direction::Up,
        }
    }

    pub fn _counterclockwise(&self) -> (d: Direction)
        ensures
            d == spec_counterclockwise(*self),
    {
        match self {
            Direction::Up => Direction::Right,
            Direction::Right => Direction::Down,
            Direction::Down => Direction::Left,
            Direction::Left => Direction::Up,
        }
    }

    pub fn opposite(&self) -> (d: Direction)
        ensures
            d == spec_opposite(*self),
    {
        match self {
            Direction::Up => Direction::Down,
            Direction::Down => Direction::Up,
            Direction::Left => Direction::Right,
            Direction::Right => Direction::Left,
        }
    }
}


/// The cells one step from `c` in each direction, listed up, right, down, left.
pub open spec fn neighbor_cells(c: Coord) -> Seq<Coord> {
    direction_order().map_values(|d: Direction| moved(c, d))
}

/// The value of `n as i32`: `n` itself up to `i32::MAX`, wrapped around above.
pub open spec fn wrap_i32(n: u32) -> int {
    if n <= i32::MAX {
        n as int
    } else {
        n - 0x1_0000_0000
    }
}

/// `v` is `r as i32` for some `r < n`.
pub open spec fn drawn_below(v: i32, n: u32) -> bool {
    if v >= 0 {
        v < n
    } else {
        v + 0x1_0000_0000 < n
    }
}

/// `v / 2` in `i32`, which rounds toward zero.
pub open spec fn half_toward_zero(v: int) -> int {
    if v >= 0 {
        v / 2
    } else {
        -((-v) / 2)
    }
}

/// The number of rows and columns of the arena.
#[derive(Clone, Copy, Debug, PartialEq, Eq, Structural)]
pub struct Dimensions {
    pub rows: u32,
    pub cols: u32,
}

/// Whether `c` lies outside the arena: a negative coordinate, or one at or
/// beyond `rows as i32` (resp. `cols as i32`).
pub open spec fn oob(dim: Dimensions, c: Coord) -> bool {
    c.x < 0 || c.x >= wrap_i32(dim.rows) || c.y < 0 || c.y >= wrap_i32(dim.cols)
}

proof fn lemma_wrap(n: u32)
    ensures
        (n as i32) as int == wrap_i32(n),
{
    assert((n as i32) as int == if n <= 0x7fff_ffffu32 {
        n as int
    } else {
        n - 0x1_0000_0000
    }) by (bit_vector);
}

proof fn lemma_drawn(r: u32, n: u32)
    requires
        r < n,
    ensures
        drawn_below(r as i32, n),
{
    lemma_wrap(r);
}

impl Dimensions {
    /// Whether `c` lies outside the arena.
    pub fn check_oob(&self, c: &Coord) -> (r: bool)
        ensures
            r == oob(*self, *c),
    {
        proof {
            lemma_wrap(self.rows);
            lemma_wrap(self.cols);
        }
        c.x < 0 || c.x >= self.rows as i32 || c.y < 0 || c.y >= self.cols as i32
    }
}

/// The abstract state of a snake: its body as a sequence of cells.
pub struct SnakeView {
    pub head: Coord,
    pub body: Seq<Coord>,
    pub direction: Direction,
    pub dead: bool,
}

impl SnakeView {
    /// Head first, then the body up to the tail.
    pub open spec fn segments(self) -> Seq<Coord> {
        seq![self.head] + self.body
    }

    /// The last segment.
    pub open spec fn tail(self) -> Coord {
        self.segments().last()
    }

    /// The segment before the tail (meaningful when the body is not empty).
    pub open spec fn before_tail(self) -> Coord {
        self.segments()[self.segments().len() - 2]
    }

    /// The tail, and the direction in which it continues the line from the
    /// segment before it; for a snake that is only a head, the direction
    /// opposite to its heading.
    pub open spec fn grow_result(self) -> (Coord, Direction) {
        (
            self.tail(),
            if self.body.len() == 0 {
                spec_opposite(self.direction)
            } else {
                dir_between(self.before_tail(), self.tail())
            },
        )
    }

    /// What `grow` needs: the last two segments are adjacent and looking from
    /// one to the other stays within `i32`.
    pub open spec fn can_grow(self) -> bool {
        self.body.len() > 0 ==> direction_to_fits(self.before_tail(), self.tail())
    }

    /// Every segment is adjacent to the next.
    pub open spec fn connected(self) -> bool {
        forall|i: int, j: int|
            0 <= i && j == i + 1 && j < self.segments().len() ==> #[trigger] adjacent(
                self.segments()[i],
                self.segments()[j],
            )
    }

    /// Every segment can step in every direction without overflow.
    pub open spec fn all_interior(self) -> bool {
        forall|i: int| 0 <= i < self.segments().len() ==> interior(#[trigger] self.segments()[i])
    }

    /// The snake after moving one step forward: the head advances, the old
    /// head joins the body and the last segment of the body is dropped.
    pub open spec fn moved_forward(self) -> SnakeView {
        SnakeView {
            head: moved(self.head, self.direction),
            body: (seq![self.head] + self.body).drop_last(),
            ..self
        }
    }
}

/// A snake: a head, the body behind it (not including the head), the
/// direction in which it heads and whether it has died.
pub struct Snake {
    pub head: Coord,
    /// not including head
    pub body: VecDeque<Coord>,
    pub direction: Direction,
    pub dead: bool,
}

impl View for Snake {
    type V = SnakeView;

    open spec fn view(&self) -> SnakeView {
        SnakeView { head: self.head, body: self.body@, direction: self.direction, dead: self.dead }
    }
}

impl Snake {
    /// Moves the snake one step in its direction, unconditionally: collisions
    /// are checked at a later step, to handle several snakes headbutting.
    pub fn move_forward(&mut self)
        requires
            move_fits(old(self).head, old(self).direction),
        ensures
            final(self)@ == old(self)@.moved_forward(),
    {
        let head = self.head;
        let new_head = self.head.move_in(self.direction);
        self.head = new_head;
        self.body.push_front(head);
        self.body.pop_back();
    }

    /// Turns the snake to `new_direction` (assumed valid); does not move it.
    pub fn turn(&mut self, new_direction: Direction)
        ensures
            final(self)@ == (SnakeView { direction: new_direction, ..old(self)@ }),
    {
        self.direction = new_direction;
    }

    /// Returns the tail and the direction in which the snake would rather
    /// grow from it.
    pub fn grow(&mut self) -> (r: (Coord, Direction))
        requires
            old(self)@.can_grow(),
        ensures
            final(self)@ == old(self)@,
            r == old(self)@.grow_result(),
            r.0 == old(self)@.segments().last(),
            old(self)@.body.len() > 0 ==> moved(
                old(self)@.segments()[old(self)@.segments().len() - 2],
                r.1,
            ) == r.0,
            old(self)@.body.len() == 0 ==> r.1 == spec_opposite(old(self)@.direction),
    {
        let body_len = self.body.len();
        let (second_to_last, last): (Option<Coord>, Coord) = match body_len {
            0 => (None, self.head),
            1 => (Some(self.head), self.body[0]),
            _ => (Some(self.body[body_len - 2]), self.body[body_len - 1]),
        };
        let direction_from_tail = match second_to_last {
            Some(s) => s.direction_to(last),
            None => self.direction.opposite(),
        };
        (last, direction_from_tail)
    }
}

/// The abstract state of the arena.
pub struct ArenaView {
    pub dim: Dimensions,
    pub food: Option<Coord>,
    pub snake: SnakeView,
}

/// The first cell of `cells` that `a` does not collide with.
pub open spec fn first_free(a: ArenaView, cells: Seq<Coord>) -> Option<Coord>
    decreases cells.len(),
{
    if cells.len() == 0 {
        None
    } else if !a.collides(cells[0]) {
        Some(cells[0])
    } else {
        first_free(a, cells.drop_first())
    }
}

/// The first of `draws` where new food may be put in `a`.
pub open spec fn first_allowed(a: ArenaView, draws: Seq<Coord>) -> Option<Coord>
    decreases draws.len(),
{
    if draws.len() == 0 {
        None
    } else if a.food != Some(draws[0]) && !a.snake.body.contains(draws[0]) {
        Some(draws[0])
    } else {
        first_allowed(a, draws.drop_first())
    }
}

/// `food` is what three random draws at most give in `a`: the first draw
/// where food may go, or none when all three draws are taken.
pub open spec fn food_redrawn(a: ArenaView, food: Option<Coord>) -> bool {
    exists|draws: Seq<Coord>|
        #![trigger first_allowed(a, draws)]
        {
            &&& draws.len() <= 3
            &&& forall|i: int|
                0 <= i < draws.len() ==> drawn_below(#[trigger] draws[i].x, a.dim.rows) && drawn_below(
                    draws[i].y,
                    a.dim.cols,
                )
            &&& food == first_allowed(a, draws)
            &&& food is None ==> draws.len() == 3
        }
}

proof fn lemma_first_allowed_push(a: ArenaView, draws: Seq<Coord>, c: Coord)
    requires
        first_allowed(a, draws) is None,
    ensures
        first_allowed(a, draws.push(c)) == if a.food != Some(c) && !a.snake.body.contains(c) {
            Some(c)
        } else {
            None::<Coord>
        },
    decreases draws.len(),
{
    if draws.len() > 0 {
        assert(draws.push(c)[0] == draws[0]);
        assert(draws.push(c).drop_first() =~= draws.drop_first().push(c));
        lemma_first_allowed_push(a, draws.drop_first(), c);
    } else {
        assert(draws.push(c)[0] == c);
        assert(draws.push(c).drop_first() =~= Seq::<Coord>::empty());
        assert(first_allowed(a, draws.push(c).drop_first()) is None);
    }
}

impl ArenaView {
    /// A cell collides when the body covers it or it lies outside the arena.
    pub open spec fn collides(self, c: Coord) -> bool {
        self.snake.body.contains(c) || oob(self.dim, c)
    }

    /// The arena after the snake turns to `d` and moves one step forward.
    pub open spec fn stepped(self, d: Direction) -> ArenaView {
        ArenaView { snake: (SnakeView { direction: d, ..self.snake }).moved_forward(), ..self }
    }

    /// Where a new tail segment goes after the snake has eaten: the cell that
    /// continues the line of the tail if it is free, else the first free
    /// neighbour of the tail (up, right, down, left), else nowhere.
    pub open spec fn tail_spot(self) -> Option<Coord> {
        let (t, d) = self.snake.grow_result();
        if !self.collides(moved(t, d)) {
            Some(moved(t, d))
        } else {
            first_free(self, neighbor_cells(t))
        }
    }

    /// The arena after the snake has grown by its new tail segment, if any.
    pub open spec fn grown(self) -> ArenaView {
        match self.tail_spot() {
            Some(x) => ArenaView { snake: SnakeView { body: self.snake.body.push(x), ..self.snake }, ..self },
            None => self,
        }
    }

    /// A cell where new food may be put: not where the food was, not on the
    /// body, and drawn from `0..rows` by `0..cols`.
    pub open spec fn food_allowed(self, c: Coord) -> bool {
        &&& self.food != Some(c)
        &&& !self.snake.body.contains(c)
        &&& drawn_below(c.x, self.dim.rows)
        &&& drawn_below(c.y, self.dim.cols)
    }

    /// The arena keeps these through every reconciliation: it is not empty,
    /// the snake is connected, and no segment is at the edge of `i32`.
    pub open spec fn wf(self) -> bool {
        &&& self.dim.rows > 0
        &&& self.dim.cols > 0
        &&& self.snake.connected()
        &&& self.snake.all_interior()
    }

    /// What `reconcile` with `d` needs so that none of its steps panics.
    pub open spec fn reconcile_ok(self, d: Direction) -> bool {
        &&& move_fits(self.snake.head, d)
        &&& (!self.collides(moved(self.snake.head, d)) && self.food == Some(
            moved(self.snake.head, d),
        )) ==> {
            let m = self.stepped(d);
            let (t, td) = m.snake.grow_result();
            &&& m.snake.can_grow()
            &&& move_fits(t, td)
            &&& m.collides(moved(t, td)) ==> interior(t)
            &&& self.dim.rows > 0
            &&& self.dim.cols > 0
        }
    }
}

/// The state of the game.
pub struct Arena {
    pub dim: Dimensions,
    pub food: Option<Coord>,
    pub snake: Snake,
}

impl View for Arena {
    type V = ArenaView;

    open spec fn view(&self) -> ArenaView {
        ArenaView { dim: self.dim, food: self.food, snake: self.snake@ }
    }
}

/// Draws a number from `0..bound` with `rand::thread_rng().gen_range`.
/// The contract claims only that the number lies below `bound`; which number
/// comes is left to chance. `gen_range` panics on an empty range, hence the
/// `requires`.
#[verifier::external_body]
fn random_below(bound: u32) -> (r: u32)
    requires
        bound > 0,
    ensures
        r < bound,
{
    rand::thread_rng().gen_range(0..bound)
}

/// Whether the body holds `c`.
fn deque_contains(q: &VecDeque<Coord>, c: &Coord) -> (r: bool)
    ensures
        r == q@.contains(*c),
{
    let mut i: usize = 0;
    while i < q.len()
        invariant
            i <= q@.len(),
            forall|j: int| 0 <= j < i ==> q@[j] != *c,
        decreases q@.len() - i,
    {
        if q[i] == *c {
            return true;
        }
        i = i + 1;
    }
    false
}

/// `n as i32 / 2`.
fn center(n: u32) -> (c: i32)
    ensures
        c as int == half_toward_zero(wrap_i32(n)),
{
    proof {
        lemma_wrap(n);
    }
    (n as i32) / 2
}

impl Arena {
    /// A new arena of `rows` by `cols` with the snake, only a head, at the
    /// centre heading right, and food put at random.
    pub fn new(rows: u32, cols: u32) -> (a: Arena)
        requires
            rows > 0,
            cols > 0,
        ensures
            a@.dim == (Dimensions { rows, cols }),
            a@.snake.head == (Coord {
                x: half_toward_zero(wrap_i32(rows)) as i32,
                y: half_toward_zero(wrap_i32(cols)) as i32,
            }),
            a@.snake.body == Seq::<Coord>::empty(),
            a@.snake.direction == Direction::Right,
            !a@.snake.dead,
            a@.food matches Some(c) && drawn_below(c.x, rows) && drawn_below(c.y, cols),
            a@.wf(),
    {
        let head: Coord = (center(rows), center(cols)).into();
        let mut a = Arena {
            dim: Dimensions { rows, cols },
            food: None,
            snake: Snake { head, body: VecDeque::new(), direction: Direction::Right, dead: false },
        };
        let ghost before = a@;
        a.regen_food();
        proof {
            assert(a@.snake.segments() =~= seq![head]);
            let draws = choose|draws: Seq<Coord>|
                #![trigger first_allowed(before, draws)]
                {
                    &&& draws.len() <= 3
                    &&& forall|i: int|
                        0 <= i < draws.len() ==> drawn_below(#[trigger] draws[i].x, rows) && drawn_below(
                            draws[i].y,
                            cols,
                        )
                    &&& a@.food == first_allowed(before, draws)
                    &&& a@.food is None ==> draws.len() == 3
                };
            assert(draws.len() > 0);
            assert(a@.food == Some(draws[0]));
        }
        a
    }

    pub fn rows(&self) -> (r: u32)
        ensures
            r == self.dim.rows,
    {
        self.dim.rows
    }

    pub fn cols(&self) -> (r: u32)
        ensures
            r == self.dim.cols,
    {
        self.dim.cols
    }

    /// Puts the food on `cand` if it is neither where the food was before
    /// (`old_food`) nor on the body; says whether it did.
    pub fn try_place_food(&mut self, old_food: Option<Coord>, cand: Coord) -> (placed: bool)
        ensures
            placed == (old_food != Some(cand) && !old(self)@.snake.body.contains(cand)),
            final(self)@ == (ArenaView {
                food: if placed {
                    Some(cand)
                } else {
                    old(self)@.food
                },
                ..old(self)@
            }),
    {
        let on_old_food = match old_food {
            Some(f) => f == cand,
            None => false,
        };
        if !on_old_food && !deque_contains(&self.snake.body, &cand) {
            self.food = Some(cand);
            true
        } else {
            false
        }
    }

    /// Puts the food on a random free cell, trying three cells at most; if
    /// none of them is free there is no food this tick.
    pub fn regen_food(&mut self)
        requires
            old(self).dim.rows > 0,
            old(self).dim.cols > 0,
        ensures
            final(self)@.dim == old(self)@.dim,
            final(self)@.snake == old(self)@.snake,
            final(self)@.food matches Some(c) ==> old(self)@.food_allowed(c),
            food_redrawn(old(self)@, final(self)@.food),
    {
        let ghost a = self@;
        let ghost mut draws: Seq<Coord> = Seq::empty();
        let old_food = self.food;
        self.food = None;
        let n_attempts: u32 = 3;
        let mut i: u32 = 0;
        while i < n_attempts
            invariant
                self@ == (ArenaView { food: None, ..a }),
                old_food == a.food,
                a == old(self)@,
                self.dim.rows > 0,
                self.dim.cols > 0,
                i <= n_attempts,
                n_attempts == 3,
                draws.len() == i,
                forall|j: int|
                    0 <= j < draws.len() ==> drawn_below(#[trigger] draws[j].x, a.dim.rows) && drawn_below(
                        draws[j].y,
                        a.dim.cols,
                    ),
                first_allowed(a, draws) is None,
            decreases n_attempts - i,
        {
            let rx = random_below(self.rows());
            let ry = random_below(self.cols());
            let cand = Coord { x: rx as i32, y: ry as i32 };
            proof {
                lemma_drawn(rx, self.dim.rows);
                lemma_drawn(ry, self.dim.cols);
                lemma_first_allowed_push(a, draws, cand);
                draws = draws.push(cand);
            }
            if self.try_place_food(old_food, cand) {
                assert(first_allowed(old(self)@, draws) == Some(cand));
                return ;
            }
            i = i + 1;
        }
        assert(first_allowed(old(self)@, draws) is None);
    }

    /// Whether `c` collides with the body or the boundary.
    pub fn collision(&self, c: &Coord) -> (r: bool)
        ensures
            r == self@.collides(*c),
            r == (self.snake.body@.contains(*c) || oob(self.dim, *c)),
    {
        let body_collision = deque_contains(&self.snake.body, c);
        let boundary_collision = self.dim.check_oob(c);
        body_collision || boundary_collision
    }
}


/// A step that fits lands on an adjacent cell.
pub proof fn lemma_moved_adjacent(c: Coord, d: Direction)
    requires
        move_fits(c, d),
    ensures
        adjacent(c, moved(c, d)),
{
}

proof fn lemma_first_free(a: ArenaView, cells: Seq<Coord>)
    ensures
        first_free(a, cells) matches Some(x) ==> cells.contains(x) && !a.collides(x),
    decreases cells.len(),
{
    if cells.len() > 0 && a.collides(cells[0]) {
        lemma_first_free(a, cells.drop_first());
        if let Some(x) = first_free(a, cells.drop_first()) {
            let k = choose|k: int| 0 <= k < cells.drop_first().len() && cells.drop_first()[k] == x;
            assert(cells[k + 1] == x);
        }
    }
}

/// Moving a well-formed snake onto a free cell keeps the arena well formed.
pub proof fn lemma_stepped_wf(a: ArenaView, d: Direction)
    requires
        a.wf(),
        !a.collides(moved(a.snake.head, d)),
    ensures
        a.stepped(d).wf(),
{
    let s = a.snake;
    let m = a.stepped(d);
    let p = moved(s.head, d);
    assert(interior(s.segments()[0]));
    lemma_moved_adjacent(s.head, d);
    assert(m.snake.segments() =~= seq![p] + s.segments().drop_last());
    assert forall|i: int, j: int|
        0 <= i && j == i + 1 && j < m.snake.segments().len() implies #[trigger] adjacent(
        m.snake.segments()[i],
        m.snake.segments()[j],
    ) by {
        if i > 0 {
            assert(m.snake.segments()[i] == s.segments()[i - 1]);
            assert(m.snake.segments()[j] == s.segments()[j - 1]);
            assert(adjacent(s.segments()[i - 1], s.segments()[j - 1]));
        }
    }
    assert forall|i: int| 0 <= i < m.snake.segments().len() implies interior(
        #[trigger] m.snake.segments()[i],
    ) by {
        if i > 0 {
            assert(m.snake.segments()[i] == s.segments()[i - 1]);
        }
    }
}

/// Every cell under a body segment collides, as does every cell outside the
/// arena, and no other cell does.
pub proof fn lemma_collides_body_and_outside(a: ArenaView, c: Coord)
    ensures
        forall|i: int| 0 <= i < a.snake.body.len() ==> a.collides(#[trigger] a.snake.body[i]),
        oob(a.dim, c) ==> a.collides(c),
        a.collides(c) ==> oob(a.dim, c) || exists|i: int|
            0 <= i < a.snake.body.len() && a.snake.body[i] == c,
{
    assert forall|i: int| 0 <= i < a.snake.body.len() implies a.collides(#[trigger] a.snake.body[i]) by {
        assert(a.snake.body.contains(a.snake.body[i]));
    }
}

/// A snake whose body is not only a head grows its tail in the direction
/// that leads from the segment before the tail to the tail, whatever its
/// heading; a lone head grows opposite to its heading.
pub proof fn lemma_grow_continues_line(s: SnakeView)
    requires
        s.can_grow(),
    ensures
        s.grow_result().0 == s.segments()[s.segments().len() - 1],
        s.body.len() > 0 ==> moved(s.segments()[s.segments().len() - 2], s.grow_result().1)
            == s.segments()[s.segments().len() - 1],
        s.body.len() == 0 ==> s.grow_result().1 == spec_opposite(s.direction),
{
}

/// After eating, a snake with a body grows its new tail segment on the cell
/// that continues the line through its last two segments, when that cell is
/// free.
pub proof fn lemma_grows_in_line(m: ArenaView, e: Direction)
    requires
        m.snake.body.len() > 0,
        m.snake.can_grow(),
        move_fits(m.snake.segments()[m.snake.segments().len() - 2], e),
        moved(m.snake.segments()[m.snake.segments().len() - 2], e) == m.snake.segments()[m.snake.segments().len() - 1],
        move_fits(m.snake.segments()[m.snake.segments().len() - 1], e),
        !m.collides(moved(m.snake.segments()[m.snake.segments().len() - 1], e)),
    ensures
        m.grown().snake.body == m.snake.body.push(moved(m.snake.segments()[m.snake.segments().len() - 1], e)),
{
    let b = m.snake.segments()[m.snake.segments().len() - 2];
    let t = m.snake.segments()[m.snake.segments().len() - 1];
    assert(dir_between(b, t) == e);
}

/// Moving a connected snake by a step that fits keeps it connected.
pub proof fn lemma_stepped_connected(a: ArenaView, d: Direction)
    requires
        a.snake.connected(),
        move_fits(a.snake.head, d),
    ensures
        a.stepped(d).snake.connected(),
{
    let s = a.snake;
    let m = a.stepped(d);
    let p = moved(s.head, d);
    lemma_moved_adjacent(s.head, d);
    assert(m.snake.segments() =~= seq![p] + s.segments().drop_last());
    assert forall|i: int, j: int|
        0 <= i && j == i + 1 && j < m.snake.segments().len() implies #[trigger] adjacent(
        m.snake.segments()[i],
        m.snake.segments()[j],
    ) by {
        if i > 0 {
            assert(m.snake.segments()[i] == s.segments()[i - 1]);
            assert(m.snake.segments()[j] == s.segments()[j - 1]);
            assert(adjacent(s.segments()[i - 1], s.segments()[j - 1]));
        }
    }
}

/// Growing a connected snake by its tail spot keeps it connected, when the
/// in-line step from the tail fits and, if it is blocked, the tail can step
/// anywhere.
pub proof fn lemma_grown_connected(m: ArenaView)
    requires
        m.snake.connected(),
        move_fits(m.snake.grow_result().0, m.snake.grow_result().1),
        m.collides(moved(m.snake.grow_result().0, m.snake.grow_result().1)) ==> interior(
            m.snake.grow_result().0,
        ),
    ensures
        m.grown().snake.connected(),
{
    let s = m.snake;
    let (t, td) = s.grow_result();
    let n = s.segments().len();
    if let Some(x) = m.tail_spot() {
        let g = m.grown();
        assert(g.snake.segments() =~= s.segments().push(x));
        assert(adjacent(t, x)) by {
            if !m.collides(moved(t, td)) {
                lemma_moved_adjacent(t, td);
            } else {
                lemma_first_free(m, neighbor_cells(t));
                let k = choose|k: int|
                    0 <= k < neighbor_cells(t).len() && neighbor_cells(t)[k] == x;
                lemma_moved_adjacent(t, direction_order()[k]);
            }
        }
        assert forall|i: int, j: int|
            0 <= i && j == i + 1 && j < g.snake.segments().len() implies #[trigger] adjacent(
            g.snake.segments()[i],
            g.snake.segments()[j],
        ) by {
            if j < n {
                assert(adjacent(s.segments()[i], s.segments()[j]));
            }
        }
    }
}

/// Growing a well-formed snake by its tail spot keeps the arena well formed.
pub proof fn lemma_grown_wf(m: ArenaView)
    requires
        m.wf(),
    ensures
        m.grown().wf(),
{
    let s = m.snake;
    let (t, td) = s.grow_result();
    let n = s.segments().len();
    assert(interior(s.segments()[n - 1]));
    if let Some(x) = m.tail_spot() {
        let g = m.grown();
        assert(g.snake.segments() =~= s.segments().push(x));
        assert(!m.collides(x) && adjacent(t, x)) by {
            if !m.collides(moved(t, td)) {
                lemma_moved_adjacent(t, td);
            } else {
                lemma_first_free(m, neighbor_cells(t));
                let k = choose|k: int|
                    0 <= k < neighbor_cells(t).len() && neighbor_cells(t)[k] == x;
                lemma_moved_adjacent(t, direction_order()[k]);
            }
        }
        assert forall|i: int, j: int|
            0 <= i && j == i + 1 && j < g.snake.segments().len() implies #[trigger] adjacent(
            g.snake.segments()[i],
            g.snake.segments()[j],
        ) by {
            if j < n {
                assert(adjacent(s.segments()[i], s.segments()[j]));
            }
        }
        assert forall|i: int| 0 <= i < g.snake.segments().len() implies interior(
            #[trigger] g.snake.segments()[i],
        ) by {
            if i < n {
                assert(interior(s.segments()[i]));
            }
        }
    }
}

/// In a well-formed arena no step of `reconcile` can panic, whatever the
/// decided move.
pub proof fn lemma_wf_reconcile_ok(a: ArenaView, d: Direction)
    requires
        a.wf(),
    ensures
        a.reconcile_ok(d),
{
    assert(interior(a.snake.segments()[0]));
    let p = moved(a.snake.head, d);
    if !a.collides(p) && a.food == Some(p) {
        lemma_stepped_wf(a, d);
        let m = a.stepped(d);
        let n = m.snake.segments().len();
        assert(interior(m.snake.segments()[n - 1]));
        if m.snake.body.len() > 0 {
            assert(interior(m.snake.segments()[n - 2]));
            assert(adjacent(m.snake.segments()[n - 2], m.snake.segments()[n - 1]));
        }
    }
}

/// Moving forward keeps the length of the snake.
pub proof fn lemma_move_keeps_length(s: SnakeView)
    ensures
        s.moved_forward().body.len() == s.body.len(),
        s.moved_forward().segments().len() == s.segments().len(),
{
}

/// A reconciliation changes the length of the body only when the snake
/// eats, and then by one segment at most.
pub proof fn lemma_reconcile_length(a: ArenaView, d: Direction)
    ensures
        a.stepped(d).snake.body.len() == a.snake.body.len(),
        a.stepped(d).grown().snake.body.len() <= a.snake.body.len() + 1,
        a.stepped(d).grown().snake.body.len() >= a.snake.body.len(),
{
}

impl Arena {
    /// The first of `cands` that does not collide, if any.
    fn first_free_cell(&self, cands: &Vec<Coord>) -> (r: Option<Coord>)
        ensures
            r == first_free(self@, cands@),
    {
        let mut i: usize = 0;
        assert(cands@.skip(0) =~= cands@);
        while i < cands.len()
            invariant
                i <= cands@.len(),
                first_free(self@, cands@) == first_free(self@, cands@.skip(i as int)),
            decreases cands@.len() - i,
        {
            let c = cands[i];
            if !self.collision(&c) {
                return Some(c);
            }
            assert(cands@.skip(i as int).drop_first() =~= cands@.skip(i + 1));
            i = i + 1;
        }
        None
    }

    /// Reconciles the state with what the behaviour tree decided: moves the
    /// snake by the decided move unless that collides (then the snake dies
    /// where it is), and when it reaches the food grows it by a tail segment
    /// and puts new food.
    pub fn reconcile(&mut self, bb: &Blackboard)
        requires
            bb.decided_move is Some,
            old(self)@.reconcile_ok(bb.decided_move->Some_0),
        ensures
            ({
                let a = old(self)@;
                let d = bb.decided_move->Some_0;
                let p = moved(a.snake.head, d);
                if a.collides(p) {
                    final(self)@ == (ArenaView { snake: SnakeView { dead: true, ..a.snake }, ..a })
                } else if a.food != Some(p) {
                    final(self)@ == a.stepped(d)
                } else {
                    let g = a.stepped(d).grown();
                    &&& final(self)@.dim == g.dim
                    &&& final(self)@.snake == g.snake
                    &&& final(self)@.food matches Some(c) ==> g.food_allowed(c)
                    &&& food_redrawn(g, final(self)@.food)
                }
            }),
            old(self)@.wf() ==> final(self)@.wf(),
            old(self)@.snake.connected() ==> final(self)@.snake.connected(),
            old(self)@.snake.body.contains(moved(old(self)@.snake.head, bb.decided_move->Some_0)) ==> {
                &&& final(self)@.snake.dead
                &&& final(self)@.snake.head == old(self)@.snake.head
                &&& final(self)@.snake.body == old(self)@.snake.body
                &&& final(self)@.food == old(self)@.food
            },
    {
        let ghost a = self@;
        let decided_move = bb.decided_move.unwrap();
        let predicted_head = self.snake.head.move_in(decided_move);
        if self.collision(&predicted_head) {
            self.snake.dead = true;
            assert(self@.snake.segments() == a.snake.segments());
            return ;
        }
        self.snake.turn(decided_move);
        self.snake.move_forward();
        assert(self@ == a.stepped(decided_move));
        proof {
            if a.wf() {
                lemma_stepped_wf(a, decided_move);
            }
            if a.snake.connected() {
                lemma_stepped_connected(a, decided_move);
            }
        }
        let ate = match self.food {
            Some(f) => f == self.snake.head,
            None => false,
        };
        if ate {
            let ghost m = self@;
            let (cur_tail, direction_from_tail) = self.snake.grow();
            let prefer = cur_tail.move_in(direction_from_tail);
            let mut tail: Option<Coord> = None;
            if !self.collision(&prefer) {
                tail = Some(prefer);
            } else {
                let ns = cur_tail.neighbors();
                assert(ns@ == neighbor_cells(cur_tail));
                tail = self.first_free_cell(&ns);
            }
            assert(tail == m.tail_spot());
            if let Some(t) = tail {
                self.snake.body.push_back(t);
            }
            assert(self@ == m.grown());
            proof {
                if a.wf() {
                    lemma_grown_wf(m);
                }
                if a.snake.connected() {
                    lemma_grown_connected(m);
                }
            }
            self.regen_food();
        }
    }
}

} // verus!
