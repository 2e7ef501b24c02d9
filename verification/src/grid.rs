//! The pixel grid: an image held as plain bytes, and the question whether a
//! cell of it can be walked on.

use vstd::prelude::*;
use crate::pos::{adjacent, Pos};

verus! {

/// A cell is open when its first channel is strictly brighter than this.
pub const THRESHOLD: u8 = 122;

/// The cost of one step between adjacent cells.
pub const STEP_COST: u64 = 1;

/// Number of bytes that one pixel takes in the raw buffer.
pub const CHANNELS: usize = 3;

/// One pixel: red, green and blue, each from 0 to 255.
#[derive(Clone, Copy, Debug, PartialEq, Eq, Structural)]
pub struct Rgb {
    pub r: u8,
    pub g: u8,
    pub b: u8,
}

/// The mathematical content of a [`Grid`]: its size and the colour of every
/// cell, keyed by `(column, row)`.
pub struct GridView {
    pub width: nat,
    pub height: nat,
    pub pixels: Map<(int, int), Rgb>,
}

impl GridView {
    /// Whether column `x`, row `y` names a cell of the grid.
    pub open spec fn has_cell(self, x: int, y: int) -> bool {
        0 <= x < self.width && 0 <= y < self.height
    }

    /// The pixel map is defined on the cells of the grid and nowhere else.
    pub open spec fn wf(self) -> bool {
        forall|x: int, y: int| #[trigger] self.pixels.dom().contains((x, y)) <==> self.has_cell(x, y)
    }

    /// Whether `p` lies within the grid.
    pub open spec fn in_bounds(self, p: Pos) -> bool {
        self.has_cell(p.0 as int, p.1 as int)
    }

    /// The colour at `p`; meaningful for positions within the grid.
    pub open spec fn pixel(self, p: Pos) -> Rgb {
        self.pixels[(p.0 as int, p.1 as int)]
    }

    /// A position is open when it lies within the grid and its first channel
    /// is brighter than [`THRESHOLD`]. Everything outside the grid is closed.
    pub open spec fn is_open(self, p: Pos) -> bool {
        self.in_bounds(p) && self.pixel(p).r > THRESHOLD
    }

    /// The candidate cell `(x, y)` as a list of successors: the cell with its
    /// step cost if it is a position and open, nothing otherwise.
    pub open spec fn offer(self, x: int, y: int) -> Seq<(Pos, u64)> {
        if i32::MIN <= x <= i32::MAX && i32::MIN <= y <= i32::MAX && self.is_open(
            Pos(x as i32, y as i32),
        ) {
            seq![(Pos(x as i32, y as i32), STEP_COST)]
        } else {
            Seq::empty()
        }
    }

    /// The successors of `p`: its open neighbours to the right, left, below and
    /// above, in that order, each at [`STEP_COST`].
    pub open spec fn neighbours(self, p: Pos) -> Seq<(Pos, u64)> {
        self.offer(p.0 + 1, p.1 as int) + self.offer(p.0 - 1, p.1 as int) + self.offer(
            p.0 as int,
            p.1 + 1,
        ) + self.offer(p.0 as int, p.1 - 1)
    }

    /// Whether `b` is among the successors of `a`.
    pub open spec fn leads(self, a: Pos, b: Pos) -> bool {
        exists|i: int| 0 <= i < self.neighbours(a).len() && (#[trigger] self.neighbours(a)[i]).0 == b
    }

    /// The grid with the cell at `p` set to `color`.
    pub open spec fn put(self, p: Pos, color: Rgb) -> GridView {
        GridView {
            width: self.width,
            height: self.height,
            pixels: self.pixels.insert((p.0 as int, p.1 as int), color),
        }
    }
}

/// Where the pixel of column `x`, row `y` starts in a raw buffer of rows
/// `width` pixels long.
pub open spec fn offset(width: nat, x: int, y: int) -> int {
    (y * width + x) * CHANNELS
}

/// The grid that a raw buffer describes: rows from top to bottom, pixels from
/// left to right, three bytes per pixel in the order red, green, blue.
pub open spec fn raster(width: nat, height: nat, bytes: Seq<u8>) -> GridView {
    GridView {
        width,
        height,
        pixels: Map::new(
            |c: (int, int)| 0 <= c.0 < width && 0 <= c.1 < height,
            |c: (int, int)|
                Rgb {
                    r: bytes[offset(width, c.0, c.1)],
                    g: bytes[offset(width, c.0, c.1) + 1],
                    b: bytes[offset(width, c.0, c.1) + 2],
                },
        ),
    }
}

/// A raster image: `width` by `height` pixels over a raw byte buffer.
pub struct Grid {
    width: u32,
    height: u32,
    data: Vec<u8>,
}

impl View for Grid {
    type V = GridView;

    closed spec fn view(&self) -> GridView {
        raster(self.width as nat, self.height as nat, self.data@)
    }
}

/// The three bytes of a cell of the grid lie inside a buffer of
/// `width * height` pixels.
proof fn lemma_offset(width: nat, height: nat, x: int, y: int)
    requires
        0 <= x < width,
        0 <= y < height,
    ensures
        0 <= y * width <= y * width + x,
        y * width + x < width * height <= CHANNELS * width * height,
        0 <= offset(width, x, y),
        offset(width, x, y) + CHANNELS <= CHANNELS * width * height,
{
    assert(0 <= y * width) by (nonlinear_arith)
        requires
            0 <= y,
            0 <= width,
    ;
    assert(y * width + width <= width * height) by (nonlinear_arith)
        requires
            0 <= y < height,
            0 <= width,
    ;
    assert(CHANNELS * width * height == (width * height) * 3) by (nonlinear_arith);
}

/// The three bytes of one cell never overlap those of another.
proof fn lemma_offset_distinct(width: nat, x1: int, y1: int, x2: int, y2: int)
    requires
        0 <= x1 < width,
        0 <= x2 < width,
        0 <= y1,
        0 <= y2,
        (x1, y1) != (x2, y2),
    ensures
        offset(width, x1, y1) + CHANNELS <= offset(width, x2, y2) || offset(width, x2, y2)
            + CHANNELS <= offset(width, x1, y1),
{
    if y1 < y2 {
        assert(y1 * width + width <= y2 * width) by (nonlinear_arith)
            requires
                y1 < y2,
                0 <= width,
        ;
    } else if y2 < y1 {
        assert(y2 * width + width <= y1 * width) by (nonlinear_arith)
            requires
                y2 < y1,
                0 <= width,
        ;
    }
}

/// A buffer of the right length is determined by the grid it describes: two
/// such buffers that describe the same grid are the same buffer.
pub proof fn lemma_raster_injective(width: nat, height: nat, a: Seq<u8>, b: Seq<u8>)
    requires
        a.len() == CHANNELS * width * height,
        b.len() == CHANNELS * width * height,
        raster(width, height, a) == raster(width, height, b),
    ensures
        a == b,
{
    assert(CHANNELS * width * height == (width * height) * 3) by (nonlinear_arith);
    assert forall|j: int| 0 <= j < a.len() implies a[j] == b[j] by {
        let cell = j / 3;
        assert(0 <= cell < width * height);
        assert(width > 0) by (nonlinear_arith)
            requires
                0 < width * height,
        ;
        let w = width as int;
        let x = cell % w;
        let y = cell / w;
        vstd::arithmetic::div_mod::lemma_fundamental_div_mod(cell, w);
        vstd::arithmetic::div_mod::lemma_mod_bound(cell, w);
        vstd::arithmetic::div_mod::lemma_div_pos_is_pos(cell, w);
        assert(y < height) by (nonlinear_arith)
            requires
                cell == w * y + x,
                0 <= x,
                0 < w,
                cell < w * height,
        ;
        assert(y * w == w * y) by (nonlinear_arith);
        assert(offset(width, x, y) == 3 * cell);
        let pa = raster(width, height, a).pixels[(x, y)];
        let pb = raster(width, height, b).pixels[(x, y)];
        assert(pa == pb);
        assert(pa.r == a[3 * cell] && pa.g == a[3 * cell + 1] && pa.b == a[3 * cell + 2]);
        assert(pb.r == b[3 * cell] && pb.g == b[3 * cell + 1] && pb.b == b[3 * cell + 2]);
    }
    assert(a =~= b);
}

impl Grid {
    #[verifier::type_invariant]
    spec fn inv(self) -> bool {
        self.data@.len() == CHANNELS * self.width * self.height <= usize::MAX
    }

    /// The content of a grid is defined on its cells and nowhere else.
    pub proof fn lemma_view_wf(&self)
        ensures
            self@.wf(),
    {
    }

    /// Wraps a raw buffer as a grid. The buffer must hold exactly
    /// `width * height` pixels of three bytes; any other length is refused.
    pub fn from_raw(width: u32, height: u32, data: Vec<u8>) -> (made: Option<Grid>)
        ensures
            made is Some <==> data@.len() == CHANNELS * width * height,
            made matches Some(grid) ==> grid@ == raster(width as nat, height as nat, data@),
    {
        assert(width * height <= 0xffff_ffff * 0xffff_ffff) by (nonlinear_arith)
            requires
                0 <= width <= 0xffff_ffff,
                0 <= height <= 0xffff_ffff,
        ;
        let cells: u128 = (width as u128) * (height as u128);
        let wanted: u128 = cells * 3;
        assert(wanted == CHANNELS * width * height) by (nonlinear_arith)
            requires
                wanted == (width * height) * 3,
        ;
        if data.len() as u128 == wanted {
            Some(Grid { width, height, data })
        } else {
            None
        }
    }

    /// Gives the raw buffer back, in the layout that [`raster`] reads.
    pub fn into_raw(self) -> (data: Vec<u8>)
        ensures
            data@.len() == CHANNELS * self@.width * self@.height,
            raster(self@.width, self@.height, data@) == self@,
    {
        proof {
            use_type_invariant(&self);
        }
        self.data
    }

    /// The number of columns.
    pub fn width(&self) -> (w: u32)
        ensures
            w == self@.width,
    {
        self.width
    }

    /// The number of rows.
    pub fn height(&self) -> (h: u32)
        ensures
            h == self@.height,
    {
        self.height
    }

    /// Whether `pos` names a cell of the grid.
    pub fn in_bounds(&self, pos: &Pos) -> (inside: bool)
        ensures
            inside == self@.in_bounds(*pos),
    {
        pos.0 >= 0 && pos.1 >= 0 && (pos.0 as u32) < self.width && (pos.1 as u32) < self.height
    }

    /// Where the three bytes of the cell at `pos` start in the buffer.
    fn start_of(&self, pos: &Pos) -> (at: usize)
        requires
            self@.in_bounds(*pos),
        ensures
            at == offset(self.width as nat, pos.0 as int, pos.1 as int),
            at + CHANNELS <= self.data@.len() <= usize::MAX,
    {
        proof {
            use_type_invariant(self);
            lemma_offset(self.width as nat, self.height as nat, pos.0 as int, pos.1 as int);
        }
        (pos.1 as usize * self.width as usize + pos.0 as usize) * CHANNELS
    }

    /// The colour at `pos`, or `None` where `pos` lies outside the grid.
    pub fn get_pixel(&self, pos: &Pos) -> (got: Option<Rgb>)
        ensures
            got == if self@.in_bounds(*pos) {
                Some(self@.pixel(*pos))
            } else {
                None
            },
    {
        if !self.in_bounds(pos) {
            return None;
        }
        proof {
            use_type_invariant(self);
        }
        let at: usize = self.start_of(pos);
        Some(Rgb { r: self.data[at], g: self.data[at + 1], b: self.data[at + 2] })
    }

    /// Writes `color` to the cell at `pos` and leaves every other cell as it
    /// was.
    pub fn put_pixel(&mut self, pos: &Pos, color: Rgb)
        requires
            old(self)@.in_bounds(*pos),
        ensures
            final(self)@ == old(self)@.put(*pos, color),
    {
        proof {
            use_type_invariant(&*self);
        }
        let at: usize = self.start_of(pos);
        self.data[at] = color.r;
        self.data[at + 1] = color.g;
        self.data[at + 2] = color.b;
        proof {
            let w = self.width as nat;
            assert forall|c: (int, int)| 0 <= c.0 < w && 0 <= c.1 < self.height && c != (
                pos.0 as int,
                pos.1 as int,
            ) implies #[trigger] self@.pixels[c] == old(self)@.pixels[c] by {
                lemma_offset_distinct(w, c.0, c.1, pos.0 as int, pos.1 as int);
                lemma_offset(w, self.height as nat, c.0, c.1);
            }
            assert(self@.pixels =~= old(self)@.put(*pos, color).pixels);
        }
    }

    /// Whether `pos` can be walked on: it lies within the grid and its first
    /// channel is brighter than [`THRESHOLD`]. The bounds are tested before
    /// any byte is read.
    pub fn is_open(&self, pos: &Pos) -> (open: bool)
        ensures
            open == self@.is_open(*pos),
    {
        match self.get_pixel(pos) {
            Some(pixel) => pixel.r > THRESHOLD,
            None => false,
        }
    }
}

impl Grid {
    /// Appends the candidate cell `(x, y)` to `next` if it is open.
    fn offer(&self, next: &mut Vec<(Pos, u64)>, x: i64, y: i64)
        ensures
            final(next)@ == old(next)@ + self@.offer(x as int, y as int),
    {
        if i32::MIN as i64 <= x && x <= i32::MAX as i64 && i32::MIN as i64 <= y && y
            <= i32::MAX as i64 {
            let cell = Pos(x as i32, y as i32);
            if self.is_open(&cell) {
                next.push((cell, STEP_COST));
                assert(next@ == old(next)@ + seq![(cell, STEP_COST)]);
                return ;
            }
        }
        assert(next@ == old(next)@ + Seq::<(Pos, u64)>::empty());
    }
}

impl Pos {
    /// The open cells next to `self`, each with the cost of stepping onto it:
    /// right, left, below, above, in that order, closed and outside cells left
    /// out.
    pub fn neighbours(&self, grid: &Grid) -> (next: Vec<(Pos, u64)>)
        ensures
            next@ == grid@.neighbours(*self),
            forall|i: int|
                0 <= i < next@.len() ==> {
                    &&& grid@.in_bounds((#[trigger] next@[i]).0)
                    &&& grid@.is_open(next@[i].0)
                    &&& adjacent(*self, next@[i].0)
                    &&& next@[i].1 == STEP_COST
                },
    {
        let x: i64 = self.0 as i64;
        let y: i64 = self.1 as i64;
        let mut next: Vec<(Pos, u64)> = Vec::new();
        grid.offer(&mut next, x + 1, y);
        grid.offer(&mut next, x - 1, y);
        grid.offer(&mut next, x, y + 1);
        grid.offer(&mut next, x, y - 1);
        proof {
            assert(next@ =~= grid@.neighbours(*self));
            lemma_neighbours(grid@, *self);
        }
        next
    }
}

/// What the successors of a position are: each is open, adjacent to the
/// position and one step away, and every open adjacent cell is among them.
pub proof fn lemma_neighbours(grid: GridView, p: Pos)
    ensures
        grid.neighbours(p).len() <= 4,
        forall|i: int|
            0 <= i < grid.neighbours(p).len() ==> {
                &&& grid.is_open((#[trigger] grid.neighbours(p)[i]).0)
                &&& adjacent(p, grid.neighbours(p)[i].0)
                &&& grid.neighbours(p)[i].1 == STEP_COST
            },
        forall|q: Pos| grid.leads(p, q) <==> adjacent(p, q) && grid.is_open(q),
{
    let east = grid.offer(p.0 + 1, p.1 as int);
    let west = grid.offer(p.0 - 1, p.1 as int);
    let south = grid.offer(p.0 as int, p.1 + 1);
    let north = grid.offer(p.0 as int, p.1 - 1);
    let all = grid.neighbours(p);
    assert(all == east + west + south + north);
    assert forall|q: Pos| adjacent(p, q) && grid.is_open(q) implies grid.leads(p, q) by {
        if q.0 == p.0 + 1 {
            assert(east == seq![(q, STEP_COST)]);
            assert(all[0].0 == q);
        } else if q.0 == p.0 - 1 {
            assert(west == seq![(q, STEP_COST)]);
            assert(all[east.len() as int].0 == q);
        } else if q.1 == p.1 + 1 {
            assert(south == seq![(q, STEP_COST)]);
            assert(all[(east.len() + west.len()) as int].0 == q);
        } else {
            assert(north == seq![(q, STEP_COST)]);
            assert(all[(east.len() + west.len() + south.len()) as int].0 == q);
        }
    }
}

} // verus!
