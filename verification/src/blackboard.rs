use vstd::prelude::*;

use crate::arena::Coord;
use crate::arena::Direction;

verus! {

/// The route that the planner found to the food, with the direction of its
/// first step.
pub struct ShortestPathToFood {
    pub path: Vec<Coord>,
    pub first_direction: Direction,
}

/// State shared between the nodes of the behaviour tree.
pub struct Blackboard {
    /// Written by the move selection: the direction of the next move.
    pub decided_move: Option<Direction>,
    /// Written by the path planner.
    pub shortest_path_to_food: Option<ShortestPathToFood>,
}

impl Blackboard {
    /// An empty blackboard: no move decided and no path planned.
    pub fn new() -> (bb: Blackboard)
        ensures
            bb.decided_move is None,
            bb.shortest_path_to_food is None,
    {
        Blackboard { decided_move: None, shortest_path_to_food: None }
    }

    /// Clears what the previous tick wrote, before the tree is ticked again.
    pub fn reset(&mut self)
        ensures
            final(self).decided_move is None,
            final(self).shortest_path_to_food is None,
    {
        self.decided_move = None;
        self.shortest_path_to_food = None;
    }
}

} // verus!
