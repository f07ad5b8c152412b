//! The grid: a row-major board of cells, each carrying its live flag, its
//! fixed position, and a running count of live neighbors.

use vstd::prelude::*;

verus! {

/// One grid position: live flag, fixed coordinates, and the running count of
/// live neighbors.
#[derive(Clone, Copy, PartialEq, Eq, Structural, Debug)]
pub struct Cell {
    pub is_alive: bool,
    pub ypos: usize,
    pub xpos: usize,
    pub neighbors: u8,
}

/// `cell` with its live flag inverted; position and count are untouched.
pub open spec fn flip_cell(cell: Cell) -> Cell {
    Cell { is_alive: !cell.is_alive, ..cell }
}

/// `cell` with its neighbor count raised (`up`) or lowered by one.
pub open spec fn bump_cell(cell: Cell, up: bool) -> Cell {
    Cell {
        neighbors: if up {
            (cell.neighbors + 1) as u8
        } else {
            (cell.neighbors - 1) as u8
        },
        ..cell
    }
}

/// `s` with the cell at `(r, c)` replaced by `cell`.
pub open spec fn set_cell(s: Seq<Seq<Cell>>, r: int, c: int, cell: Cell) -> Seq<Seq<Cell>> {
    s.update(r, s[r].update(c, cell))
}

/// A `height` x `width` board of cells, owned for the lifetime of a run.
pub struct Grid {
    pub cells: Vec<Vec<Cell>>,
    pub height: usize,
    pub width: usize,
}

impl View for Grid {
    type V = Seq<Seq<Cell>>;

    open spec fn view(&self) -> Seq<Seq<Cell>> {
        self.cells@.map_values(|row: Vec<Cell>| row@)
    }
}

/// The board shape: `h` rows of `w` cells, each cell recording its own
/// position.
pub open spec fn grid_shape(s: Seq<Seq<Cell>>, h: int, w: int) -> bool {
    &&& s.len() == h
    &&& forall|i: int| 0 <= i < h ==> (#[trigger] s[i]).len() == w
    &&& forall|i: int, j: int|
        0 <= i < h && 0 <= j < w ==> (#[trigger] s[i][j]).ypos == i && s[i][j].xpos == j
}

impl Grid {
    /// The stored dimensions match the rows and columns actually held.
    pub open spec fn wf(self) -> bool {
        grid_shape(self@, self.height as int, self.width as int)
    }

    /// `(r, c)` lies on the board.
    pub open spec fn in_bounds(self, r: int, c: int) -> bool {
        0 <= r < self.height && 0 <= c < self.width
    }

    /// Build a board with every cell dead and every count zero.
    pub fn new(height: usize, width: usize) -> (g: Grid)
        ensures
            g.wf(),
            g.height == height,
            g.width == width,
            forall|i: int, j: int|
                0 <= i < height && 0 <= j < width ==> !(#[trigger] g@[i][j]).is_alive
                    && g@[i][j].neighbors == 0,
    {
        let mut cells: Vec<Vec<Cell>> = Vec::new();
        let mut i: usize = 0;
        while i < height
            invariant
                i <= height,
                cells@.len() == i,
                forall|r: int| 0 <= r < i ==> (#[trigger] cells@[r])@.len() == width,
                forall|r: int, c: int|
                    0 <= r < i && 0 <= c < width ==> (#[trigger] cells@[r]@[c]) == (Cell {
                        is_alive: false,
                        ypos: r as usize,
                        xpos: c as usize,
                        neighbors: 0,
                    }),
            decreases height - i,
        {
            let mut row: Vec<Cell> = Vec::new();
            let mut j: usize = 0;
            while j < width
                invariant
                    j <= width,
                    row@.len() == j,
                    forall|c: int|
                        0 <= c < j ==> (#[trigger] row@[c]) == (Cell {
                            is_alive: false,
                            ypos: i as usize,
                            xpos: c as usize,
                            neighbors: 0,
                        }),
                decreases width - j,
            {
                row.push(Cell { is_alive: false, ypos: i, xpos: j, neighbors: 0 });
                j += 1;
            }
            cells.push(row);
            i += 1;
        }
        Grid { cells, height, width }
    }

    /// The board's width.
    pub fn width(&self) -> (w: usize)
        ensures
            w == self.width,
    {
        self.width
    }

    /// The board's height.
    pub fn height(&self) -> (h: usize)
        ensures
            h == self.height,
    {
        self.height
    }

    /// Bounds-checked read-only access to a cell.
    pub fn get(&self, row: usize, col: usize) -> (r: Option<&Cell>)
        requires
            self.wf(),
        ensures
            match r {
                Some(cell) => self.in_bounds(row as int, col as int) && *cell == self@[row as int][col as int],
                None => !self.in_bounds(row as int, col as int),
            },
    {
        if row < self.height && col < self.width {
            proof {
                assert(self@[row as int] == self.cells@[row as int]@);
            }
            Some(&self.cells[row][col])
        } else {
            None
        }
    }

    /// Flip the live flag of the cell at `(row, col)` and report the new
    /// state; out-of-bounds coordinates are a silent no-op.
    pub fn toggle(&mut self, row: usize, col: usize) -> (r: Option<bool>)
        requires
            old(self).wf(),
        ensures
            final(self).wf(),
            final(self).height == old(self).height,
            final(self).width == old(self).width,
            old(self).in_bounds(row as int, col as int) ==> final(self)@ == set_cell(
                old(self)@,
                row as int,
                col as int,
                flip_cell(old(self)@[row as int][col as int]),
            ) && r == Some(!old(self)@[row as int][col as int].is_alive),
            !old(self).in_bounds(row as int, col as int) ==> *final(self) == *old(self) && r
                is None,
    {
        if row < self.height && col < self.width {
            proof {
                assert(old(self)@[row as int] == old(self).cells@[row as int]@);
            }
            let row_vec = &mut self.cells[row];
            let cell = &mut row_vec[col];
            cell.is_alive = !cell.is_alive;
            let status = cell.is_alive;
            proof {
                assert(self@ =~= set_cell(
                    old(self)@,
                    row as int,
                    col as int,
                    flip_cell(old(self)@[row as int][col as int]),
                ));
            }
            Some(status)
        } else {
            None
        }
    }

    /// Raise (`up`) or lower the neighbor count of the cell at `(row, col)`
    /// by one.
    pub(crate) fn bump(&mut self, row: usize, col: usize, up: bool)
        requires
            old(self).wf(),
            old(self).in_bounds(row as int, col as int),
            up ==> old(self)@[row as int][col as int].neighbors < 255,
            !up ==> old(self)@[row as int][col as int].neighbors > 0,
        ensures
            final(self).wf(),
            final(self).height == old(self).height,
            final(self).width == old(self).width,
            final(self)@ == set_cell(
                old(self)@,
                row as int,
                col as int,
                bump_cell(old(self)@[row as int][col as int], up),
            ),
    {
        proof {
            assert(old(self)@[row as int] == old(self).cells@[row as int]@);
        }
        let row_vec = &mut self.cells[row];
        let cell = &mut row_vec[col];
        if up {
            cell.neighbors = cell.neighbors + 1;
        } else {
            cell.neighbors = cell.neighbors - 1;
        }
        proof {
            assert(self@ =~= set_cell(
                old(self)@,
                row as int,
                col as int,
                bump_cell(old(self)@[row as int][col as int], up),
            ));
        }
    }
}

} // verus!
