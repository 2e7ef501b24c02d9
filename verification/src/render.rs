//! Painting a route onto the pixels, and the whole run from search to
//! picture.

use vstd::prelude::*;
use crate::grid::{Grid, GridView, Rgb};
use crate::pos::{adjacent, Pos};
use crate::search::{astar_outcome, find_path};

verus! {

/// The colour in which a found route is drawn: pure red.
pub open spec fn spec_highlight() -> Rgb {
    Rgb { r: 255, g: 0, b: 0 }
}

/// The colour in which a found route is drawn: pure red.
#[verifier::when_used_as_spec(spec_highlight)]
pub fn highlight() -> (color: Rgb)
    ensures
        color == spec_highlight(),
{
    Rgb { r: 255, g: 0, b: 0 }
}

/// Whether `path` passes through column `x`, row `y`.
pub open spec fn covers(path: Seq<Pos>, x: int, y: int) -> bool {
    exists|k: int| 0 <= k < path.len() && (#[trigger] path[k]).0 == x && path[k].1 == y
}

impl GridView {
    /// The grid with every cell that `path` passes through set to `color`,
    /// and every other cell as it was.
    pub open spec fn painted(self, path: Seq<Pos>, color: Rgb) -> GridView {
        GridView {
            width: self.width,
            height: self.height,
            pixels: Map::new(
                |c: (int, int)| self.pixels.dom().contains(c),
                |c: (int, int)|
                    if covers(path, c.0, c.1) {
                        color
                    } else {
                        self.pixels[c]
                    },
            ),
        }
    }
}

/// Painting nothing changes nothing.
pub proof fn lemma_painted_empty(grid: GridView, color: Rgb)
    ensures
        grid.painted(Seq::empty(), color) == grid,
{
    assert(grid.painted(Seq::empty(), color).pixels =~= grid.pixels);
}

/// Painting one more position is painting the path so far and then setting
/// that one cell.
pub proof fn lemma_painted_push(grid: GridView, path: Seq<Pos>, last: Pos, color: Rgb)
    requires
        grid.wf(),
        grid.in_bounds(last),
    ensures
        grid.painted(path.push(last), color) == grid.painted(path, color).put(last, color),
{
    let longer = path.push(last);
    assert forall|x: int, y: int| covers(longer, x, y) <==> covers(path, x, y) || (last.0 == x
        && last.1 == y) by {
        if covers(path, x, y) {
            let k = choose|k: int| 0 <= k < path.len() && (#[trigger] path[k]).0 == x && path[k].1 == y;
            assert(longer[k] == path[k]);
        }
        if last.0 == x && last.1 == y {
            assert(longer[path.len() as int] == last);
        }
        if covers(longer, x, y) {
            let k = choose|k: int|
                0 <= k < longer.len() && (#[trigger] longer[k]).0 == x && longer[k].1 == y;
            if k < path.len() {
                assert(path[k] == longer[k]);
            }
        }
    }
    assert(grid.pixels.dom().contains((last.0 as int, last.1 as int)));
    assert(grid.painted(longer, color).pixels =~= grid.painted(path, color).put(
        last,
        color,
    ).pixels);
}

/// Within the grid, a painted cell shows the colour exactly where the path
/// passes, and its old colour elsewhere.
pub proof fn lemma_painted_pixel(grid: GridView, path: Seq<Pos>, color: Rgb, q: Pos)
    requires
        grid.wf(),
        grid.in_bounds(q),
    ensures
        grid.painted(path, color).pixel(q) == if path.contains(q) {
            color
        } else {
            grid.pixel(q)
        },
{
    if path.contains(q) {
        let k = choose|k: int| 0 <= k < path.len() && path[k] == q;
        assert(path[k].0 == q.0 && path[k].1 == q.1);
    }
    if covers(path, q.0 as int, q.1 as int) {
        let k = choose|k: int|
            0 <= k < path.len() && (#[trigger] path[k]).0 == q.0 && path[k].1 == q.1;
        assert(path[k] == q);
    }
    assert(grid.pixels.dom().contains((q.0 as int, q.1 as int)));
}

/// Painting a path a second time in the same colour changes nothing.
pub proof fn lemma_painted_idempotent(grid: GridView, path: Seq<Pos>, color: Rgb)
    ensures
        grid.painted(path, color).painted(path, color) == grid.painted(path, color),
{
    assert(grid.painted(path, color).painted(path, color).pixels =~= grid.painted(
        path,
        color,
    ).pixels);
}

/// Writes `color` to the cell of every position in `path`, and leaves every
/// other cell as it was. Returns the number of positions painted, which is
/// the length of the path.
pub fn overlay(grid: &mut Grid, path: &[Pos], color: Rgb) -> (count: usize)
    requires
        forall|k: int| 0 <= k < path@.len() ==> old(grid)@.in_bounds(#[trigger] path@[k]),
    ensures
        final(grid)@ == old(grid)@.painted(path@, color),
        final(grid)@.width == old(grid)@.width,
        final(grid)@.height == old(grid)@.height,
        forall|q: Pos|
            old(grid)@.in_bounds(q) ==> #[trigger] final(grid)@.pixel(q) == if path@.contains(q) {
                color
            } else {
                old(grid)@.pixel(q)
            },
        count == path@.len(),
{
    let ghost before = grid@;
    proof {
        grid.lemma_view_wf();
        lemma_painted_empty(before, color);
        assert(path@.take(0) =~= Seq::<Pos>::empty());
    }
    let mut i: usize = 0;
    while i < path.len()
        invariant
            i <= path@.len(),
            before == old(grid)@,
            before.wf(),
            forall|k: int| 0 <= k < path@.len() ==> before.in_bounds(#[trigger] path@[k]),
            grid@ == before.painted(path@.take(i as int), color),
        decreases path@.len() - i,
    {
        grid.put_pixel(&path[i], color);
        proof {
            lemma_painted_push(before, path@.take(i as int), path@[i as int], color);
            assert(path@.take(i as int).push(path@[i as int]) =~= path@.take(i + 1));
        }
        i += 1;
    }
    proof {
        assert(path@.take(i as int) =~= path@);
        assert forall|q: Pos| before.in_bounds(q) implies #[trigger] grid@.pixel(q) == if path@.contains(
            q,
        ) {
            color
        } else {
            before.pixel(q)
        } by {
            lemma_painted_pixel(before, path@, color, q);
        }
    }
    i
}

/// Draws the outcome of a search: a found path is painted in the highlight
/// colour and its length returned; without a path the grid stays as it is and
/// `None` is returned.
pub fn render(grid: &mut Grid, found: &Option<(Vec<Pos>, u64)>) -> (count: Option<usize>)
    requires
        found matches Some((path, _)) ==> forall|k: int|
            0 <= k < path@.len() ==> old(grid)@.in_bounds(#[trigger] path@[k]),
    ensures
        found matches Some((path, _)) ==> {
            &&& count matches Some(n) && n == path@.len()
            &&& final(grid)@ == old(grid)@.painted(path@, highlight())
        },
        found is None ==> count is None && final(grid)@ == old(grid)@,
{
    match found {
        Some((path, _)) => Some(overlay(grid, path.as_slice(), highlight())),
        None => None,
    }
}

/// Why a run was refused before any search began.
#[derive(Clone, Copy, Debug, PartialEq, Eq, Structural)]
pub enum SolveError {
    /// The start does not lie within the grid.
    StartOutside,
    /// The start lies within the grid, and the goal does not.
    GoalOutside,
}

/// Searches `grid` for a shortest walk from `start` to `goal` and, if there
/// is one, paints it in the highlight colour.
///
/// Both ends must lie within the grid, or the run is refused and nothing is
/// searched or painted. `Ok(Some(n))` reports a painted path of `n`
/// positions; `Ok(None)` reports that no walk connects the two, and leaves
/// the grid as it was.
pub fn solve(grid: &mut Grid, start: Pos, goal: Pos) -> (outcome: Result<
    Option<usize>,
    SolveError,
>)
    ensures
        match outcome {
            Err(SolveError::StartOutside) => {
                &&& !old(grid)@.in_bounds(start)
                &&& final(grid)@ == old(grid)@
            },
            Err(SolveError::GoalOutside) => {
                &&& old(grid)@.in_bounds(start)
                &&& !old(grid)@.in_bounds(goal)
                &&& final(grid)@ == old(grid)@
            },
            Ok(None) => {
                &&& old(grid)@.in_bounds(start)
                &&& old(grid)@.in_bounds(goal)
                &&& !old(grid)@.reachable(start, goal)
                &&& astar_outcome(old(grid)@, start, goal) is None
                &&& final(grid)@ == old(grid)@
            },
            Ok(Some(n)) => {
                &&& old(grid)@.in_bounds(start)
                &&& old(grid)@.in_bounds(goal)
                &&& astar_outcome(old(grid)@, start, goal) matches Some((path, _))
                &&& old(grid)@.shortest(path, start, goal)
                &&& n == path.len()
                &&& final(grid)@ == old(grid)@.painted(path, highlight())
            },
        },
        start == goal && old(grid)@.in_bounds(start) ==> {
            &&& outcome == Ok::<Option<usize>, SolveError>(Some(1usize))
            &&& final(grid)@ == old(grid)@.painted(seq![start], highlight())
        },
{
    if !grid.in_bounds(&start) {
        return Err(SolveError::StartOutside);
    }
    if !grid.in_bounds(&goal) {
        return Err(SolveError::GoalOutside);
    }
    let found = find_path(grid, start, goal);
    proof {
        if found is Some {
            let path = found->Some_0.0@;
            assert forall|k: int| 0 <= k < path.len() implies grid@.in_bounds(
                #[trigger] path[k],
            ) by {
                if k > 0 {
                    assert(adjacent(path[k - 1], path[k]));
                    assert(grid@.is_open(path[k]));
                }
            }
        }
    }
    let count = render(grid, &found);
    Ok(count)
}

} // verus!
