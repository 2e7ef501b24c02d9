//! The search for a shortest walk over the open cells of a grid.

use vstd::prelude::*;
use pathfinding::directed::astar::astar;
use crate::grid::{lemma_neighbours, Grid, GridView, STEP_COST};
use crate::walk::{
    lemma_shortest_across_open_rectangle, lemma_shortest_is_simple, lemma_simple_walk_fits_grid,
    lemma_staircase_connects, lemma_walk_covers_distance, spans,
};
use crate::pos::{adjacent, manhattan, Pos};

verus! {

/// The heuristic is the Manhattan distance divided by this. Any divisor of at
/// least one keeps the estimate from exceeding the true cost; a larger one
/// only makes the estimate looser.
pub const HEURISTIC_DIVISOR: u64 = 3;

/// The estimated cost of reaching `goal` from `p`.
pub open spec fn estimate(p: Pos, goal: Pos) -> nat {
    manhattan(p, goal) / (HEURISTIC_DIVISOR as nat)
}

impl GridView {
    /// The estimate never exceeds the number of steps of a walk to `goal`.
    pub open spec fn admissible(self, goal: Pos) -> bool {
        forall|from: Pos, path: Seq<Pos>| #[trigger]
            self.connects(path, from, goal) ==> estimate(from, goal) <= path.len() - 1
    }
}

/// The heuristic of the search: the Manhattan distance to the goal, divided
/// by [`HEURISTIC_DIVISOR`] and rounded down.
pub fn heuristic(pos: &Pos, goal: &Pos) -> (h: u64)
    ensures
        h == estimate(*pos, *goal),
{
    pos.distance(goal) / HEURISTIC_DIVISOR
}

/// The goal test of the search.
pub fn reached(pos: &Pos, goal: &Pos) -> (done: bool)
    ensures
        done == (*pos == *goal),
{
    *pos == *goal
}

/// The heuristic is admissible on every grid and for every goal.
pub proof fn lemma_estimate_admissible(grid: GridView, goal: Pos)
    ensures
        grid.admissible(goal),
{
    assert forall|from: Pos, path: Seq<Pos>| #[trigger]
        grid.connects(path, from, goal) implies estimate(from, goal) <= path.len() - 1 by {
        lemma_walk_covers_distance(grid, path, from, goal);
    }
}

/// What the A* search of the `pathfinding` crate returns on a grid, as a
/// function of the grid's content, the start and the goal. The search keeps
/// its frontier in a binary heap and its nodes in an insertion-ordered map,
/// and consults neither a clock, nor a random source, nor a seeded hasher:
/// the same grid and the same ends give the same path, also among several
/// that are equally short.
pub uninterp spec fn astar_outcome(grid: GridView, start: Pos, goal: Pos) -> Option<
    (Seq<Pos>, u64),
>;

/// Runs `pathfinding::directed::astar::astar` from `start`, with
/// [`Pos::neighbours`] as its successors, [`heuristic`] as its estimate and
/// [`reached`] as its goal test.
///
/// The contract is believed of that function and not proved here. It says
/// that a path which the function returns begins at `start`, ends where the
/// goal test holds, and has each of its nodes among the successors of the one
/// before; that, where the estimate never exceeds the true remaining cost,
/// the reported cost is the sum of the step costs along the path and no path
/// to the goal is cheaper; that `None` comes back only when no path reaches
/// the goal; and that the same arguments give the same result. The function
/// returns on every input, since the nodes it can meet are the start and the
/// finitely many open cells.
#[verifier::external_body]
fn astar_search(grid: &Grid, start: &Pos, goal: &Pos) -> (found: Option<(Vec<Pos>, u64)>)
    ensures
        found matches Some((path, _)) ==> grid@.connects(path@, *start, *goal),
        found matches Some((path, cost)) ==> (grid@.admissible(*goal) ==> cost == (path@.len() - 1)
            * STEP_COST && grid@.shortest(path@, *start, *goal)),
        found is None ==> !grid@.reachable(*start, *goal),
        found matches Some((path, cost)) ==> astar_outcome(grid@, *start, *goal) == Some(
            (path@, cost),
        ),
        found is None ==> astar_outcome(grid@, *start, *goal) is None,
{
    astar(start, |p| p.neighbours(grid), |p| heuristic(p, goal), |p| reached(p, goal))
}

/// The outcome of a search with the path taken as a sequence.
pub open spec fn outcome_view(found: Option<(Vec<Pos>, u64)>) -> Option<(Seq<Pos>, u64)> {
    match found {
        Some((path, cost)) => Some((path@, cost)),
        None => None,
    }
}

/// Searches for a shortest walk from `start` to `goal` over the open cells of
/// `grid`, moving one cell right, left, down or up at a time.
///
/// Returns the walk, both ends included, with its cost, which is the number
/// of its steps; or `None` when no walk connects the two. The start itself
/// need not be open: a search from a position to itself always succeeds with
/// the walk of that one position. A walk that is returned passes through no
/// position twice, and so is no longer than the grid has cells, the start
/// counted apart.
pub fn find_path(grid: &Grid, start: Pos, goal: Pos) -> (found: Option<(Vec<Pos>, u64)>)
    ensures
        found is Some <==> grid@.reachable(start, goal),
        found matches Some((path, cost)) ==> {
            &&& grid@.shortest(path@, start, goal)
            &&& cost == path@.len() - 1
            &&& path@.no_duplicates()
            &&& path@.len() <= grid@.width * grid@.height + 1
            &&& forall|i: int, j: int|
                0 <= i && j == i + 1 && j < path@.len() ==> adjacent(
                    #[trigger] path@[i],
                    #[trigger] path@[j],
                ) && grid@.is_open(path@[j])
        },
        start == goal ==> (found matches Some((path, cost)) && path@ == seq![start] && cost == 0),
        (forall|p: Pos| spans(start, goal, p) && p != start ==> grid@.is_open(p)) ==> (found matches Some(
            (_, cost),
        ) && cost == manhattan(start, goal)),
        outcome_view(found) == astar_outcome(grid@, start, goal),
{
    let found = astar_search(grid, &start, &goal);
    proof {
        lemma_estimate_admissible(grid@, goal);
        if start == goal {
            assert(grid@.connects(seq![start], start, goal));
        }
        if forall|p: Pos| spans(start, goal, p) && p != start ==> grid@.is_open(p) {
            lemma_staircase_connects(grid@, start, goal);
            lemma_shortest_across_open_rectangle(grid@, found->Some_0.0@, start, goal);
        }
        if let Some((path, _)) = &found {
            lemma_shortest_is_simple(grid@, path@, start, goal);
            lemma_simple_walk_fits_grid(grid@, path@);
            assert forall|i: int, j: int| 0 <= i && j == i + 1 && j < path@.len() implies adjacent(
                #[trigger] path@[i],
                #[trigger] path@[j],
            ) && grid@.is_open(path@[j]) by {
                assert(grid@.leads(path@[i], path@[j]));
                lemma_neighbours(grid@, path@[i]);
            }
            if start == goal {
                assert(path@ =~= seq![start]);
            }
        }
    }
    found
}

} // verus!
