//! Walks over the open cells of a grid, and what holds of the shortest ones.

use vstd::prelude::*;
use crate::grid::{lemma_neighbours, GridView};
use crate::pos::{manhattan, Pos};

verus! {

impl GridView {
    /// A walk is a non-empty sequence of positions in which each one leads to
    /// the next: the next is an open cell adjacent to it.
    pub open spec fn is_walk(self, path: Seq<Pos>) -> bool {
        &&& path.len() >= 1
        &&& forall|i: int, j: int|
            0 <= i && j == i + 1 && j < path.len() ==> self.leads(
                #[trigger] path[i],
                #[trigger] path[j],
            )
    }

    /// A walk that begins at `start` and ends at `goal`. The first position
    /// is not asked to be open, nor to lie within the grid.
    pub open spec fn connects(self, path: Seq<Pos>, start: Pos, goal: Pos) -> bool {
        self.is_walk(path) && path.first() == start && path.last() == goal
    }

    /// Whether any walk connects `start` to `goal`.
    pub open spec fn reachable(self, start: Pos, goal: Pos) -> bool {
        exists|path: Seq<Pos>| self.connects(path, start, goal)
    }

    /// A walk from `start` to `goal` than which no other is shorter.
    pub open spec fn shortest(self, path: Seq<Pos>, start: Pos, goal: Pos) -> bool {
        &&& self.connects(path, start, goal)
        &&& forall|other: Seq<Pos>| #[trigger]
            self.connects(other, start, goal) ==> path.len() <= other.len()
    }
}

/// A walk takes at least as many steps as the Manhattan distance between
/// its ends.
pub proof fn lemma_walk_covers_distance(grid: GridView, path: Seq<Pos>, from: Pos, goal: Pos)
    requires
        grid.connects(path, from, goal),
    ensures
        manhattan(from, goal) <= path.len() - 1,
    decreases path.len(),
{
    if path.len() > 1 {
        let rest = path.subrange(1, path.len() as int);
        assert(grid.leads(path[0], path[1]));
        lemma_neighbours(grid, from);
        assert forall|i: int, j: int| 0 <= i && j == i + 1 && j < rest.len() implies grid.leads(
            #[trigger] rest[i],
            #[trigger] rest[j],
        ) by {
            assert(grid.leads(path[i + 1], path[j + 1]));
        }
        lemma_walk_covers_distance(grid, rest, path[1], goal);
    }
}

/// Whether `p` lies in the rectangle of which `a` and `b` are opposite
/// corners.
pub open spec fn spans(a: Pos, b: Pos, p: Pos) -> bool {
    &&& (a.0 <= p.0 <= b.0 || b.0 <= p.0 <= a.0)
    &&& (a.1 <= p.1 <= b.1 || b.1 <= p.1 <= a.1)
}

/// The direct route from `start` to `goal`: along the row of `start` to the
/// column of `goal`, then along that column.
pub open spec fn staircase(start: Pos, goal: Pos) -> Seq<Pos>
    decreases manhattan(start, goal),
{
    if start.0 < goal.0 {
        seq![start] + staircase(Pos((start.0 + 1) as i32, start.1), goal)
    } else if start.0 > goal.0 {
        seq![start] + staircase(Pos((start.0 - 1) as i32, start.1), goal)
    } else if start.1 < goal.1 {
        seq![start] + staircase(Pos(start.0, (start.1 + 1) as i32), goal)
    } else if start.1 > goal.1 {
        seq![start] + staircase(Pos(start.0, (start.1 - 1) as i32), goal)
    } else {
        seq![start]
    }
}

/// Where every cell of the rectangle between two positions is open, the
/// direct route connects them in as many steps as their Manhattan distance.
pub proof fn lemma_staircase_connects(grid: GridView, start: Pos, goal: Pos)
    requires
        forall|p: Pos| spans(start, goal, p) && p != start ==> grid.is_open(p),
    ensures
        grid.connects(staircase(start, goal), start, goal),
        staircase(start, goal).len() == manhattan(start, goal) + 1,
    decreases manhattan(start, goal),
{
    if start != goal {
        let next = if start.0 < goal.0 {
            Pos((start.0 + 1) as i32, start.1)
        } else if start.0 > goal.0 {
            Pos((start.0 - 1) as i32, start.1)
        } else if start.1 < goal.1 {
            Pos(start.0, (start.1 + 1) as i32)
        } else {
            Pos(start.0, (start.1 - 1) as i32)
        };
        let rest = staircase(next, goal);
        let path = staircase(start, goal);
        assert(path == seq![start] + rest);
        assert(spans(start, goal, next));
        assert forall|p: Pos| spans(next, goal, p) && p != next implies grid.is_open(p) by {
            assert(spans(start, goal, p));
        }
        lemma_staircase_connects(grid, next, goal);
        lemma_neighbours(grid, start);
        assert(grid.leads(start, next));
        assert forall|i: int, j: int| 0 <= i && j == i + 1 && j < path.len() implies grid.leads(
            #[trigger] path[i],
            #[trigger] path[j],
        ) by {
            if i > 0 {
                assert(grid.leads(rest[i - 1], rest[j - 1]));
            }
        }
    }
}

/// Across a rectangle of open cells a shortest walk takes exactly as many
/// steps as the Manhattan distance between its ends.
pub proof fn lemma_shortest_across_open_rectangle(
    grid: GridView,
    path: Seq<Pos>,
    start: Pos,
    goal: Pos,
)
    requires
        grid.shortest(path, start, goal),
        forall|p: Pos| spans(start, goal, p) && p != start ==> grid.is_open(p),
    ensures
        path.len() == manhattan(start, goal) + 1,
{
    lemma_staircase_connects(grid, start, goal);
    lemma_walk_covers_distance(grid, path, start, goal);
}

impl GridView {
    /// No position of column `c` is open.
    pub open spec fn column_closed(self, c: int) -> bool {
        forall|p: Pos| p.0 == c ==> !#[trigger] self.is_open(p)
    }

    /// No position of row `r` is open.
    pub open spec fn row_closed(self, r: int) -> bool {
        forall|p: Pos| p.1 == r ==> !#[trigger] self.is_open(p)
    }
}

/// A walk that begins to one side of a closed column stays on that side.
proof fn lemma_walk_keeps_to_side(grid: GridView, path: Seq<Pos>, c: int, k: int)
    requires
        grid.is_walk(path),
        grid.column_closed(c),
        0 <= k < path.len(),
    ensures
        path[0].0 < c ==> path[k].0 < c,
        path[0].0 > c ==> path[k].0 > c,
    decreases k,
{
    if k > 0 {
        lemma_walk_keeps_to_side(grid, path, c, k - 1);
        assert(grid.leads(path[k - 1], path[k]));
        lemma_neighbours(grid, path[k - 1]);
        assert(grid.is_open(path[k]));
    }
}

/// A walk that begins above or below a closed row stays there.
proof fn lemma_walk_keeps_to_level(grid: GridView, path: Seq<Pos>, r: int, k: int)
    requires
        grid.is_walk(path),
        grid.row_closed(r),
        0 <= k < path.len(),
    ensures
        path[0].1 < r ==> path[k].1 < r,
        path[0].1 > r ==> path[k].1 > r,
    decreases k,
{
    if k > 0 {
        lemma_walk_keeps_to_level(grid, path, r, k - 1);
        assert(grid.leads(path[k - 1], path[k]));
        lemma_neighbours(grid, path[k - 1]);
        assert(grid.is_open(path[k]));
    }
}

/// A closed column between the start and the goal, or through the goal,
/// leaves the goal out of reach.
pub proof fn lemma_closed_column_separates(grid: GridView, start: Pos, goal: Pos, c: int)
    requires
        grid.column_closed(c),
        start.0 < c <= goal.0 || goal.0 <= c < start.0,
    ensures
        !grid.reachable(start, goal),
{
    assert forall|path: Seq<Pos>| !grid.connects(path, start, goal) by {
        if grid.connects(path, start, goal) {
            lemma_walk_keeps_to_side(grid, path, c, path.len() - 1);
        }
    }
}

/// A closed row between the start and the goal, or through the goal, leaves
/// the goal out of reach.
pub proof fn lemma_closed_row_separates(grid: GridView, start: Pos, goal: Pos, r: int)
    requires
        grid.row_closed(r),
        start.1 < r <= goal.1 || goal.1 <= r < start.1,
    ensures
        !grid.reachable(start, goal),
{
    assert forall|path: Seq<Pos>| !grid.connects(path, start, goal) by {
        if grid.connects(path, start, goal) {
            lemma_walk_keeps_to_level(grid, path, r, path.len() - 1);
        }
    }
}

/// A shortest walk passes through no position twice: a walk that came back
/// to a position could be cut short there.
pub proof fn lemma_shortest_is_simple(grid: GridView, path: Seq<Pos>, start: Pos, goal: Pos)
    requires
        grid.shortest(path, start, goal),
    ensures
        path.no_duplicates(),
{
    assert forall|i: int, j: int| 0 <= i < path.len() && 0 <= j < path.len() && i != j implies path[i]
        != path[j] by {
        if path[i] == path[j] {
            let (lo, hi) = if i < j {
                (i, j)
            } else {
                (j, i)
            };
            let cut = path.take(lo) + path.skip(hi);
            assert forall|a: int, b: int| 0 <= a && b == a + 1 && b < cut.len() implies grid.leads(
                #[trigger] cut[a],
                #[trigger] cut[b],
            ) by {
                if b < lo {
                    assert(grid.leads(path[a], path[b]));
                } else if a < lo {
                    assert(grid.leads(path[a], path[lo]));
                } else {
                    assert(grid.leads(path[a - lo + hi], path[b - lo + hi]));
                }
            }
            assert(cut.first() == start);
            assert(cut.last() == goal);
            assert(grid.connects(cut, start, goal));
        }
    }
}

/// Numbering the cells of a grid row by row gives each cell a number of its
/// own below `width * height`.
proof fn lemma_cell_numbers(width: int, height: int, x1: int, y1: int, x2: int, y2: int)
    requires
        0 <= x1 < width,
        0 <= y1 < height,
        0 <= x2 < width,
        0 <= y2 < height,
    ensures
        0 <= y1 * width + x1 < width * height,
        (x1, y1) != (x2, y2) ==> y1 * width + x1 != y2 * width + x2,
{
    assert(0 <= y1 * width && y1 * width + width <= width * height) by (nonlinear_arith)
        requires
            0 <= y1 < height,
            0 <= width,
    ;
    if y1 < y2 {
        assert(y1 * width + width <= y2 * width) by (nonlinear_arith)
            requires
                y1 < y2,
                0 <= width,
        ;
    } else if y2 < y1 {
        assert(y2 * width + width <= y1 * width) by (nonlinear_arith)
            requires
                y2 < y1,
                0 <= width,
        ;
    }
}

/// A walk that passes through no position twice has at most one position
/// more than the grid has cells: all but its first are cells of the grid.
pub proof fn lemma_simple_walk_fits_grid(grid: GridView, path: Seq<Pos>)
    requires
        grid.is_walk(path),
        path.no_duplicates(),
    ensures
        path.len() <= grid.width * grid.height + 1,
{
    let w = grid.width as int;
    let h = grid.height as int;
    let tail = path.skip(1);
    let numbers = Seq::new(tail.len(), |i: int| tail[i].1 * w + tail[i].0);
    assert forall|i: int| 0 <= i < tail.len() implies grid.in_bounds(#[trigger] tail[i]) by {
        assert(grid.leads(path[i], path[i + 1]));
        lemma_neighbours(grid, path[i]);
    }
    assert forall|i: int, j: int|
        0 <= i < numbers.len() && 0 <= j < numbers.len() && i != j implies numbers[i]
        != numbers[j] by {
        assert(path[i + 1] != path[j + 1]);
        lemma_cell_numbers(w, h, tail[i].0 as int, tail[i].1 as int, tail[j].0 as int, tail[j].1 as int);
    }
    assert(0 <= w * h) by (nonlinear_arith)
        requires
            0 <= w,
            0 <= h,
    ;
    let all = vstd::set_lib::set_int_range(0, w * h);
    assert forall|n: int| numbers.to_set().contains(n) implies all.contains(n) by {
        let i = choose|i: int| 0 <= i < numbers.len() && numbers[i] == n;
        lemma_cell_numbers(w, h, tail[i].0 as int, tail[i].1 as int, tail[i].0 as int, tail[i].1 as int);
    }
    numbers.unique_seq_to_set();
    vstd::set_lib::lemma_int_range(0, w * h);
    vstd::set_lib::lemma_len_subset(numbers.to_set(), all);
}

} // verus!
