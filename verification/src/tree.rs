use std::collections::VecDeque;

use vstd::prelude::*;

use crate::arena::dir_between;
use crate::arena::interior;
use crate::arena::moved;
use crate::arena::spec_opposite;
use crate::arena::Arena;
use crate::arena::Coord;
use crate::bfs::bfs;
use crate::bfs::first_route;
use crate::bfs::is_route;
use crate::blackboard::Blackboard;
use crate::blackboard::ShortestPathToFood;

verus! {

/// The actions at the leaves of the snake's behaviour tree.
#[derive(Clone, Copy, Debug, PartialEq, Eq, Structural)]
pub enum Action {
    FindPathToFood,
    SelectMove,
    /// keeps the tree running
    BbtRunning,
}

/// What an action reports to the behaviour tree.
#[derive(Clone, Copy, Debug, PartialEq, Eq, Structural)]
pub enum TickStatus {
    Success,
    Failure,
    Running,
}

/// `p` is the route the planner finds from the head to `food` around the
/// body: the first of the shortest routes (see `first_route`).
pub open spec fn planned_route(arena: &Arena, food: Coord, p: Seq<Coord>) -> bool {
    first_route(p, arena.snake.head, food, arena.dim, arena.snake.body@)
}

/// The planned route to the food would start by turning the snake straight
/// back against its heading.
pub open spec fn reverses(arena: &Arena) -> bool {
    arena.food matches Some(f) && exists|p: Seq<Coord>|
        #[trigger] planned_route(arena, f, p) && p[1] == moved(
            arena.snake.head,
            spec_opposite(arena.snake.direction),
        )
}

/// What the planner needs before it looks for a route to the food: the food
/// is neither under the head nor on the body.
pub open spec fn can_search(arena: &Arena) -> bool {
    arena.food matches Some(f) ==> {
        &&& interior(arena.snake.head)
        &&& f != arena.snake.head
        &&& !arena.snake.body@.contains(f)
    }
}

/// What planning a path to the food needs: the search can run, and its
/// route does not turn the snake back into itself (the snake cannot do a
/// 180).
pub open spec fn can_plan(arena: &Arena) -> bool {
    can_search(arena) && !reverses(arena)
}

/// What planning reports and leaves on the blackboard, from `old_bb` to
/// `new_bb`.
pub open spec fn plan_outcome(arena: &Arena, old_bb: Blackboard, new_bb: Blackboard, r: TickStatus) -> bool {
    &&& r != TickStatus::Running
    &&& (r == TickStatus::Failure) == (arena.food is None || forall|p: Seq<Coord>|
        !is_route(p, arena.snake.head, arena.food->Some_0, arena.dim, arena.snake.body@))
    &&& r == TickStatus::Failure ==> new_bb == old_bb
    &&& r == TickStatus::Success ==> {
        &&& arena.food is Some
        &&& new_bb.shortest_path_to_food matches Some(sp) && {
            &&& planned_route(arena, arena.food->Some_0, sp.path@)
            &&& sp.first_direction == dir_between(arena.snake.head, sp.path@[1])
            &&& new_bb.decided_move == Some(sp.first_direction)
        }
    }
}

/// A snake whose body starts right behind its head never plans a first step
/// back into itself: the cell behind the head is an obstacle of every route.
pub proof fn lemma_no_reversal(arena: &Arena)
    requires
        can_search(arena),
        arena.snake.body@.len() > 0,
        arena.snake.body@[0] == moved(arena.snake.head, spec_opposite(arena.snake.direction)),
    ensures
        !reverses(arena),
{
    if reverses(arena) {
        let f = arena.food->Some_0;
        let p = choose|p: Seq<Coord>|
            #[trigger] planned_route(arena, f, p) && p[1] == moved(
                arena.snake.head,
                spec_opposite(arena.snake.direction),
            );
        assert(p.len() > 1);
        assert(crate::bfs::open_cell(arena.dim, arena.snake.body@, p[1]));
    }
}

fn deque_to_vec(q: &VecDeque<Coord>) -> (v: Vec<Coord>)
    ensures
        v@ == q@,
{
    let mut v: Vec<Coord> = Vec::new();
    let mut i: usize = 0;
    while i < q.len()
        invariant
            i <= q@.len(),
            v@ == q@.take(i as int),
        decreases q@.len() - i,
    {
        v.push(q[i]);
        assert(q@.take(i + 1) == q@.take(i as int).push(q@[i as int]));
        i = i + 1;
    }
    assert(q@.take(q@.len() as int) == q@);
    v
}

/// Whether the planned route to the food would turn the snake back against
/// its heading.
pub fn plan_reverses(arena: &Arena) -> (r: bool)
    requires
        can_search(arena),
    ensures
        r == reverses(arena),
{
    let food = match arena.food {
        Some(f) => f,
        None => {
            return false;
        },
    };
    let obstacles = deque_to_vec(&arena.snake.body);
    let path = bfs(arena.snake.head, food, arena.dim, obstacles.as_slice());
    if path.len() == 0 {
        return false;
    }
    let next_planned = path[1];
    assert(crate::arena::adjacent(path@[0], path@[1]));
    let direction_to = arena.snake.head.direction_to(next_planned);
    let back = arena.snake.direction.opposite();
    proof {
        crate::arena::lemma_direction_to_moved(arena.snake.head, back);
        assert forall|p: Seq<Coord>| #[trigger] planned_route(arena, food, p) implies p == path@ by {
            crate::bfs::lemma_first_route_unique(p, path@, arena.snake.head, food, arena.dim, arena.snake.body@);
        }
        if direction_to == back {
            assert(planned_route(arena, food, path@));
        }
    }
    direction_to == back
}

/// Plans a shortest path from the head to the food around the body and
/// decides to take its first step. Fails when there is no food or no path.
pub fn tick_find_path_to_food(arena: &Arena, bb: &mut Blackboard) -> (r: TickStatus)
    requires
        can_plan(arena),
    ensures
        plan_outcome(arena, *old(bb), *final(bb), r),
{
    let food = match arena.food {
        Some(f) => f,
        None => {
            return TickStatus::Failure;
        },
    };
    let obstacles = deque_to_vec(&arena.snake.body);
    let path = bfs(arena.snake.head, food, arena.dim, obstacles.as_slice());

    // no path found to food
    if path.len() == 0 {
        return TickStatus::Failure;
    }
    // the first cell after the head
    let next_planned = path[1];
    assert(crate::arena::adjacent(path@[0], path@[1]));
    let direction_to = arena.snake.head.direction_to(next_planned);
    bb.shortest_path_to_food = Some(ShortestPathToFood { path, first_direction: direction_to });
    // this is the only way of planning, so the move is decided here
    bb.decided_move = Some(direction_to);
    TickStatus::Success
}

/// Decides the move: the first step of the planned path if there is one,
/// else the current heading.
pub fn tick_select_move(arena: &Arena, bb: &mut Blackboard) -> (r: TickStatus)
    ensures
        r == TickStatus::Success,
        final(bb).shortest_path_to_food == old(bb).shortest_path_to_food,
        final(bb).decided_move == Some(
            match old(bb).shortest_path_to_food {
                Some(sp) => sp.first_direction,
                None => arena.snake.direction,
            },
        ),
{
    let mv = match &bb.shortest_path_to_food {
        Some(sp) => sp.first_direction,
        None => arena.snake.direction,
    };
    bb.decided_move = Some(mv);
    TickStatus::Success
}

/// Runs one action of the behaviour tree.
pub fn run_action(arena: &Arena, bb: &mut Blackboard, action: Action) -> (r: TickStatus)
    requires
        action == Action::FindPathToFood ==> can_plan(arena),
    ensures
        action == Action::BbtRunning ==> r == TickStatus::Running && *final(bb) == *old(bb),
        action == Action::SelectMove ==> r == TickStatus::Success && final(bb).shortest_path_to_food
            == old(bb).shortest_path_to_food && final(bb).decided_move == Some(
            match old(bb).shortest_path_to_food {
                Some(sp) => sp.first_direction,
                None => arena.snake.direction,
            },
        ),
        action == Action::FindPathToFood ==> plan_outcome(arena, *old(bb), *final(bb), r),
{
    match action {
        Action::FindPathToFood => tick_find_path_to_food(arena, bb),
        Action::SelectMove => tick_select_move(arena, bb),
        Action::BbtRunning => TickStatus::Running,
    }
}

} // verus!
