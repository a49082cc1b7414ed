use vstd::prelude::*;
use vstd::pervasive::VecAdditionalExecFns;

verus! {

/// The state of one cell of the grid: empty space, space reached by a
/// flood fill, or a wall painted by the user.
#[derive(Clone, Copy, Debug, PartialEq, Eq, Structural)]
pub enum Tile {
    Empty,
    Filled,
    Wall,
}

/// The ways a grid operation can reject its arguments.
#[derive(Clone, Copy, Debug, PartialEq, Eq, Structural)]
pub enum GridError {
    /// A coordinate lies outside the grid extents.
    OutOfBounds,
    /// A replacement tile array does not match the grid dimensions.
    DimensionMismatch,
    /// A grid was requested with zero width or zero height.
    InvalidDimensions,
}

/// The shape of a tile array: exactly `h` rows of exactly `w` tiles each.
pub open spec fn dims(t: Seq<Seq<Tile>>, w: int, h: int) -> bool {
    &&& t.len() == h
    &&& forall|y: int| 0 <= y < h ==> (#[trigger] t[y]).len() == w
}

/// The rows of a tile array, as a sequence of sequences.
pub open spec fn tiles_view(t: &Vec<Vec<Tile>>) -> Seq<Seq<Tile>> {
    Seq::new(t@.len(), |y: int| t@[y]@)
}

/// A rectangular grid of tiles with fixed, positive dimensions.
#[derive(Clone, Debug)]
pub struct Grid {
    width: usize,
    height: usize,
    tiles: Vec<Vec<Tile>>,
}

impl View for Grid {
    type V = Seq<Seq<Tile>>;

    closed spec fn view(&self) -> Seq<Seq<Tile>> {
        tiles_view(&self.tiles)
    }
}

/// A row of `width` tiles, all `Empty`.
fn empty_row(width: usize) -> (r: Vec<Tile>)
    ensures
        r@.len() == width,
        forall|j: int| 0 <= j < width ==> r@[j] == Tile::Empty,
{
    let mut r: Vec<Tile> = Vec::new();
    let mut x: usize = 0;
    while x < width
        invariant
            x <= width,
            r@.len() == x,
            forall|j: int| 0 <= j < x ==> r@[j] == Tile::Empty,
        decreases width - x,
    {
        r.push(Tile::Empty);
        x = x + 1;
    }
    r
}

/// A fresh copy of one row.
fn clone_row(row: &Vec<Tile>) -> (c: Vec<Tile>)
    ensures
        c@ == row@,
{
    let mut c: Vec<Tile> = Vec::new();
    let mut x: usize = 0;
    while x < row.len()
        invariant
            x <= row@.len(),
            c@ == row@.subrange(0, x as int),
        decreases row@.len() - x,
    {
        c.push(row[x]);
        proof {
            assert(c@ =~= row@.subrange(0, x as int + 1));
        }
        x = x + 1;
    }
    proof {
        assert(c@ =~= row@);
    }
    c
}

/// A fresh copy of a whole tile array, row by row.
pub(crate) fn clone_tiles(t: &Vec<Vec<Tile>>) -> (c: Vec<Vec<Tile>>)
    ensures
        tiles_view(&c) == tiles_view(t),
{
    let mut c: Vec<Vec<Tile>> = Vec::new();
    let mut y: usize = 0;
    while y < t.len()
        invariant
            y <= t@.len(),
            c@.len() == y,
            forall|i: int| 0 <= i < y ==> (#[trigger] c@[i]@) == t@[i]@,
        decreases t@.len() - y,
    {
        c.push(clone_row(&t[y]));
        y = y + 1;
    }
    proof {
        assert(tiles_view(&c) =~= tiles_view(t));
    }
    c
}

/// The tile of `t` at column `x` of row `y`.
pub(crate) fn tile_at(t: &Vec<Vec<Tile>>, y: usize, x: usize) -> (r: Tile)
    requires
        y < tiles_view(t).len(),
        x < tiles_view(t)[y as int].len(),
    ensures
        r == tiles_view(t)[y as int][x as int],
{
    t[y][x]
}

/// Overwrites the tile of `t` at column `x` of row `y`; everything else,
/// the dimensions included, is untouched.
pub(crate) fn set_cell(t: &mut Vec<Vec<Tile>>, y: usize, x: usize, v: Tile)
    requires
        y < tiles_view(old(t)).len(),
        x < tiles_view(old(t))[y as int].len(),
    ensures
        tiles_view(final(t)) == tiles_view(old(t)).update(
            y as int,
            tiles_view(old(t))[y as int].update(x as int, v),
        ),
        tiles_view(final(t)).len() == tiles_view(old(t)).len(),
        forall|i: int|
            0 <= i < tiles_view(old(t)).len() ==> (#[trigger] tiles_view(final(t))[i]).len()
                == tiles_view(old(t))[i].len(),
{
    let row = &mut t[y];
    row.set(x, v);
    proof {
        assert(tiles_view(t) =~= tiles_view(old(t)).update(
            y as int,
            tiles_view(old(t))[y as int].update(x as int, v),
        ));
        assert forall|i: int| 0 <= i < tiles_view(old(t)).len() implies (#[trigger] tiles_view(
            t,
        )[i]).len() == tiles_view(old(t))[i].len() by {
            if i == y as int {
            }
        }
    }
}

impl Grid {
    /// The width the grid was created with.
    pub closed spec fn spec_width(&self) -> usize {
        self.width
    }

    /// The height the grid was created with.
    pub closed spec fn spec_height(&self) -> usize {
        self.height
    }

    /// Grid invariant: positive dimensions, every row exactly `width` tiles
    /// long, and no more tiles than one address space can hold.
    pub open spec fn wf(&self) -> bool {
        &&& dims(self@, self.spec_width() as int, self.spec_height() as int)
        &&& self.spec_width() >= 1
        &&& self.spec_height() >= 1
        &&& self.spec_width() * self.spec_height() <= usize::MAX
    }

    /// Creates a grid of the given dimensions with every tile `Empty`.
    /// Zero width or zero height is rejected with `InvalidDimensions`.
    pub fn new(width: usize, height: usize) -> (r: Result<Grid, GridError>)
        requires
            width * height <= usize::MAX,
        ensures
            match r {
                Ok(g) => {
                    &&& width >= 1
                    &&& height >= 1
                    &&& g.wf()
                    &&& g.spec_width() == width
                    &&& g.spec_height() == height
                    &&& forall|y: int, x: int|
                        0 <= y < height && 0 <= x < width ==> (#[trigger] g@[y][x]) == Tile::Empty
                },
                Err(e) => e == GridError::InvalidDimensions && (width == 0 || height == 0),
            },
    {
        if width == 0 || height == 0 {
            return Err(GridError::InvalidDimensions);
        }
        let mut tiles: Vec<Vec<Tile>> = Vec::new();
        let mut y: usize = 0;
        while y < height
            invariant
                y <= height,
                tiles@.len() == y,
                forall|i: int| 0 <= i < y ==> (#[trigger] tiles@[i]@).len() == width,
                forall|i: int, j: int|
                    0 <= i < y && 0 <= j < width ==> (#[trigger] tiles@[i]@[j]) == Tile::Empty,
            decreases height - y,
        {
            tiles.push(empty_row(width));
            y = y + 1;
        }
        Ok(Grid { width, height, tiles })
    }

    /// The grid width.
    pub fn width(&self) -> (w: usize)
        ensures
            w == self.spec_width(),
    {
        self.width
    }

    /// The grid height.
    pub fn height(&self) -> (h: usize)
        ensures
            h == self.spec_height(),
    {
        self.height
    }

    /// The tile at `(x, y)`, or `OutOfBounds` when either coordinate lies
    /// outside the grid extents.
    pub fn get(&self, x: usize, y: usize) -> (r: Result<Tile, GridError>)
        requires
            self.wf(),
        ensures
            match r {
                Ok(t) => {
                    &&& x < self.spec_width()
                    &&& y < self.spec_height()
                    &&& t == self@[y as int][x as int]
                },
                Err(e) => {
                    &&& e == GridError::OutOfBounds
                    &&& (x >= self.spec_width() || y >= self.spec_height())
                },
            },
    {
        if x >= self.width || y >= self.height {
            return Err(GridError::OutOfBounds);
        }
        Ok(tile_at(&self.tiles, y, x))
    }

    /// Overwrites the tile at `(x, y)` in place; same bounds contract as `get`.
    pub fn set(&mut self, x: usize, y: usize, tile: Tile) -> (r: Result<(), GridError>)
        requires
            old(self).wf(),
        ensures
            final(self).wf(),
            final(self).spec_width() == old(self).spec_width(),
            final(self).spec_height() == old(self).spec_height(),
            match r {
                Ok(()) => {
                    &&& x < old(self).spec_width()
                    &&& y < old(self).spec_height()
                    &&& final(self)@ == old(self)@.update(
                        y as int,
                        old(self)@[y as int].update(x as int, tile),
                    )
                },
                Err(e) => {
                    &&& e == GridError::OutOfBounds
                    &&& (x >= old(self).spec_width() || y >= old(self).spec_height())
                    &&& final(self)@ == old(self)@
                },
            },
    {
        if x >= self.width || y >= self.height {
            return Err(GridError::OutOfBounds);
        }
        set_cell(&mut self.tiles, y, x, tile);
        Ok(())
    }

    /// Replaces the whole tile array, as after a fill; a replacement whose
    /// dimensions do not match the grid's is rejected with `DimensionMismatch`.
    pub fn replace_tiles(&mut self, new_tiles: Vec<Vec<Tile>>) -> (r: Result<(), GridError>)
        requires
            old(self).wf(),
        ensures
            final(self).wf(),
            final(self).spec_width() == old(self).spec_width(),
            final(self).spec_height() == old(self).spec_height(),
            match r {
                Ok(()) => {
                    &&& dims(
                        tiles_view(&new_tiles),
                        old(self).spec_width() as int,
                        old(self).spec_height() as int,
                    )
                    &&& final(self)@ == tiles_view(&new_tiles)
                },
                Err(e) => {
                    &&& e == GridError::DimensionMismatch
                    &&& !dims(
                        tiles_view(&new_tiles),
                        old(self).spec_width() as int,
                        old(self).spec_height() as int,
                    )
                    &&& final(self)@ == old(self)@
                },
            },
    {
        if new_tiles.len() != self.height {
            return Err(GridError::DimensionMismatch);
        }
        let mut y: usize = 0;
        while y < new_tiles.len()
            invariant
                y <= new_tiles@.len(),
                old(self).wf(),
                new_tiles@.len() == old(self).spec_height(),
                self == old(self),
                forall|i: int|
                    0 <= i < y ==> (#[trigger] tiles_view(&new_tiles)[i]).len()
                        == old(self).spec_width(),
            decreases new_tiles@.len() - y,
        {
            if new_tiles[y].len() != self.width {
                proof {
                    assert(tiles_view(&new_tiles)[y as int].len() != old(self).spec_width());
                }
                return Err(GridError::DimensionMismatch);
            }
            y = y + 1;
        }
        self.tiles = new_tiles;
        Ok(())
    }

    /// A fresh copy of the tile array, for handing to the fill.
    pub fn snapshot_tiles(&self) -> (t: Vec<Vec<Tile>>)
        ensures
            tiles_view(&t) == self@,
    {
        clone_tiles(&self.tiles)
    }
}

} // verus!
