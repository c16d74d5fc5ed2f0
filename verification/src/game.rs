//! The board engine: a rectangular grid of boolean cells, indexed by
//! `(x, y)` with `0 <= x < width` and `0 <= y < height`, together with an
//! optional editing cursor that always stays inside the grid.

use vstd::prelude::*;

verus! {

/// Every way an engine operation can fail. All errors are ordinary
/// recoverable values; no operation panics on bad input.
#[derive(Clone, Copy, Debug, PartialEq, Eq, Structural)]
pub enum GameError {
    /// A coordinate lies outside the grid.
    OutOfBounds,
    /// The operation needs a cursor, but none is set.
    CursorIsNone,
    /// A movement symbol other than `'w'`, `'a'`, `'s'`, `'d'`.
    InvalidDirection,
    /// A parsed width or height is zero.
    ZeroDimension,
    /// A malformed header or coordinate line.
    FormatError,
}

/// A Game of Life board: a `dim_x` by `dim_y` grid of cells stored in
/// column-major order (`board[x][y]`), plus an optional cursor.
pub struct Game {
    board: Vec<Vec<bool>>,
    dim_x: usize,
    dim_y: usize,
    cursor: Option<(usize, usize)>,
}

impl Game {
    /// The board width, as an abstract integer.
    pub closed spec fn width(self) -> int {
        self.dim_x as int
    }

    /// The board height, as an abstract integer.
    pub closed spec fn height(self) -> int {
        self.dim_y as int
    }

    /// The state of the cell at `(x, y)` (meaningful only in bounds).
    pub closed spec fn cell(self, x: int, y: int) -> bool {
        self.board@[x]@[y]
    }

    /// The cursor, if set, as abstract coordinates.
    pub closed spec fn cursor_spec(self) -> Option<(int, int)> {
        match self.cursor {
            Some(c) => Some((c.0 as int, c.1 as int)),
            None => None,
        }
    }

    /// Whether `(x, y)` lies on the grid.
    pub open spec fn in_bounds(self, x: int, y: int) -> bool {
        0 <= x < self.width() && 0 <= y < self.height()
    }

    /// Structural invariant: the grid is exactly `width` columns of
    /// `height` cells, and the cursor, when present, is in bounds.
    pub closed spec fn well_formed(self) -> bool {
        &&& self.board@.len() == self.dim_x
        &&& forall|x: int|
            0 <= x < self.dim_x ==> (#[trigger] self.board@[x])@.len() == self.dim_y
        &&& match self.cursor {
            Some(c) => c.0 < self.dim_x && c.1 < self.dim_y,
            None => true,
        }
    }

    /// The set of live cells: the canonical content of the board.
    pub open spec fn live_set(self) -> Set<(int, int)> {
        Set::new(|p: (int, int)| self.in_bounds(p.0, p.1) && self.cell(p.0, p.1))
    }

    /// Whether the cell at `(x, y)` exists and is alive; positions off the
    /// grid count as dead (the grid is not toroidal).
    pub open spec fn live(self, x: int, y: int) -> bool {
        self.in_bounds(x, y) && self.cell(x, y)
    }

    /// 1 if `(x, y)` holds a live cell, else 0.
    pub open spec fn live_as_int(self, x: int, y: int) -> int {
        if self.live(x, y) { 1 } else { 0 }
    }

    /// How many of the up-to-8 Moore neighbors of `(x, y)` are alive.
    pub open spec fn neighbor_count(self, x: int, y: int) -> int {
        self.live_as_int(x - 1, y - 1) + self.live_as_int(x - 1, y) + self.live_as_int(
            x - 1,
            y + 1,
        ) + self.live_as_int(x, y - 1) + self.live_as_int(x, y + 1) + self.live_as_int(
            x + 1,
            y - 1,
        ) + self.live_as_int(x + 1, y) + self.live_as_int(x + 1, y + 1)
    }

    /// The Game of Life rule: what the cell at `(x, y)` holds in the next
    /// generation, computed entirely from the current one.
    pub open spec fn next_cell(self, x: int, y: int) -> bool {
        if self.cell(x, y) {
            self.neighbor_count(x, y) == 2 || self.neighbor_count(x, y) == 3
        } else {
            self.neighbor_count(x, y) == 3
        }
    }

    /// The dimensions are machine integers, so they fit in `usize`.
    pub proof fn lemma_dims_bounds(self)
        ensures
            0 <= self.width() <= usize::MAX as int,
            0 <= self.height() <= usize::MAX as int,
    {
    }

    /// Creates a board with the given dimensions, all cells dead and no
    /// cursor. Zero dimensions are not rejected here: that validation
    /// belongs to the deserialization boundary.
    pub fn new(dim_x: usize, dim_y: usize) -> (g: Game)
        ensures
            g.well_formed(),
            g.width() == dim_x,
            g.height() == dim_y,
            forall|x: int, y: int| g.in_bounds(x, y) ==> !g.cell(x, y),
            g.cursor_spec() is None,
    {
        let mut board: Vec<Vec<bool>> = Vec::with_capacity(dim_x);
        for _i in 0..dim_x
            invariant
                board@.len() == _i,
                forall|x: int|
                    0 <= x < _i ==> (#[trigger] board@[x])@.len() == dim_y && forall|y: int|
                        0 <= y < dim_y ==> !board@[x]@[y],
        {
            board.push(dead_column(dim_y));
        }
        Game { board, dim_x, dim_y, cursor: None }
    }

    /// Places the cursor at `(x, y)`; fails with `OutOfBounds` (leaving
    /// the cursor unchanged) when the coordinate lies off the grid.
    pub fn set_cursor(&mut self, x: usize, y: usize) -> (r: Result<(), GameError>)
        requires
            old(self).well_formed(),
        ensures
            final(self).well_formed(),
            final(self).width() == old(self).width(),
            final(self).height() == old(self).height(),
            forall|i: int, j: int|
                final(self).in_bounds(i, j) ==> final(self).cell(i, j) == old(self).cell(i, j),
            r is Ok <==> old(self).in_bounds(x as int, y as int),
            r is Ok ==> final(self).cursor_spec() == Some((x as int, y as int)),
            r is Err ==> r == Err::<(), GameError>(GameError::OutOfBounds)
                && final(self).cursor_spec() == old(self).cursor_spec(),
    {
        if x >= self.dim_x || y >= self.dim_y {
            return Err(GameError::OutOfBounds);
        }
        self.cursor = Some((x, y));
        Ok(())
    }

    /// Moves the cursor one step in direction `dir` (`'w'` up, `'a'` left,
    /// `'s'` down, `'d'` right), saturating at the board edge: a move past
    /// the edge leaves that coordinate unchanged rather than failing.
    /// Fails with `CursorIsNone` when no cursor is set, and with
    /// `InvalidDirection` for any other symbol.
    pub fn move_cursor(&mut self, dir: char) -> (r: Result<(), GameError>)
        requires
            old(self).well_formed(),
        ensures
            final(self).well_formed(),
            final(self).width() == old(self).width(),
            final(self).height() == old(self).height(),
            forall|i: int, j: int|
                final(self).in_bounds(i, j) ==> final(self).cell(i, j) == old(self).cell(i, j),
            r is Ok <==> old(self).cursor_spec() is Some && is_direction(dir),
            old(self).cursor_spec() is None ==> r == Err::<(), GameError>(GameError::CursorIsNone),
            old(self).cursor_spec() is Some && !is_direction(dir) ==> r == Err::<(), GameError>(
                GameError::InvalidDirection,
            ),
            r is Ok ==> final(self).cursor_spec() == Some(
                moved_cursor(
                    old(self).width(),
                    old(self).height(),
                    old(self).cursor_spec()->Some_0,
                    dir,
                ),
            ),
            r is Err ==> final(self).cursor_spec() == old(self).cursor_spec(),
    {
        let mut cursor = match self.cursor {
            Some(c) => c,
            None => {
                return Err(GameError::CursorIsNone);
            },
        };
        match dir {
            'w' => {
                if cursor.1 > 0 {
                    cursor.1 = cursor.1 - 1;
                }
            },
            'a' => {
                if cursor.0 > 0 {
                    cursor.0 = cursor.0 - 1;
                }
            },
            's' => {
                if cursor.1 < self.dim_y - 1 {
                    cursor.1 = cursor.1 + 1;
                }
            },
            'd' => {
                if cursor.0 < self.dim_x - 1 {
                    cursor.0 = cursor.0 + 1;
                }
            },
            _ => {
                return Err(GameError::InvalidDirection);
            },
        }
        self.cursor = Some(cursor);
        Ok(())
    }

    /// Clears the cursor unconditionally; grid and dimensions are kept.
    pub fn remove_cursor(&mut self)
        requires
            old(self).well_formed(),
        ensures
            final(self).well_formed(),
            final(self).width() == old(self).width(),
            final(self).height() == old(self).height(),
            forall|i: int, j: int|
                final(self).in_bounds(i, j) ==> final(self).cell(i, j) == old(self).cell(i, j),
            final(self).cursor_spec() is None,
    {
        self.cursor = None;
    }

    /// Toggles the alive/dead state of the cell under the cursor; fails
    /// with `CursorIsNone` (changing nothing) when no cursor is set.
    pub fn swap_cell(&mut self) -> (r: Result<(), GameError>)
        requires
            old(self).well_formed(),
        ensures
            final(self).well_formed(),
            final(self).width() == old(self).width(),
            final(self).height() == old(self).height(),
            final(self).cursor_spec() == old(self).cursor_spec(),
            r is Ok <==> old(self).cursor_spec() is Some,
            r is Err ==> r == Err::<(), GameError>(GameError::CursorIsNone) && forall|i: int, j: int|
                final(self).in_bounds(i, j) ==> final(self).cell(i, j) == old(self).cell(i, j),
            r is Ok ==> ({
                let c = old(self).cursor_spec()->Some_0;
                final(self).cell(c.0, c.1) == !old(self).cell(c.0, c.1) && forall|i: int, j: int|
                    final(self).in_bounds(i, j) && (i, j) != c
                        ==> final(self).cell(i, j) == old(self).cell(i, j)
            }),
    {
        let (x, y) = match self.cursor {
            Some(c) => c,
            None => {
                return Err(GameError::CursorIsNone);
            },
        };
        let was = self.board[x][y];
        self.board[x][y] = !was;
        Ok(())
    }

    /// Marks the cell at `(x, y)` alive; fails with `OutOfBounds` (and
    /// changes nothing) when the coordinate lies off the grid.
    pub fn set_cell(&mut self, x: usize, y: usize) -> (r: Result<(), GameError>)
        requires
            old(self).well_formed(),
        ensures
            final(self).well_formed(),
            final(self).width() == old(self).width(),
            final(self).height() == old(self).height(),
            final(self).cursor_spec() == old(self).cursor_spec(),
            r is Ok <==> old(self).in_bounds(x as int, y as int),
            r is Err ==> r == Err::<(), GameError>(GameError::OutOfBounds),
            r is Err ==> forall|i: int, j: int|
                final(self).in_bounds(i, j) ==> final(self).cell(i, j) == old(self).cell(i, j),
            r is Ok ==> final(self).cell(x as int, y as int),
            r is Ok ==> forall|i: int, j: int|
                final(self).in_bounds(i, j) && (i, j) != (x as int, y as int) ==> final(self).cell(
                    i,
                    j,
                ) == old(self).cell(i, j),
    {
        if x >= self.dim_x || y >= self.dim_y {
            return Err(GameError::OutOfBounds);
        }
        self.board[x][y] = true;
        Ok(())
    }

    /// The board width.
    pub fn get_width(&self) -> (w: usize)
        ensures
            w == self.width(),
    {
        self.dim_x
    }

    /// The board height.
    pub fn get_height(&self) -> (h: usize)
        ensures
            h == self.height(),
    {
        self.dim_y
    }

    /// Reads the cell at `(x, y)`: part of the rendering snapshot a
    /// presentation layer iterates over.
    pub fn get_cell(&self, x: usize, y: usize) -> (b: bool)
        requires
            self.well_formed(),
            self.in_bounds(x as int, y as int),
        ensures
            b == self.cell(x as int, y as int),
    {
        self.board[x][y]
    }

    /// The cursor position, if one is set.
    pub fn get_cursor(&self) -> (c: Option<(usize, usize)>)
        ensures
            match c {
                Some(p) => self.cursor_spec() == Some((p.0 as int, p.1 as int)),
                None => self.cursor_spec() is None,
            },
    {
        self.cursor
    }

    /// How many live Moore neighbors the cell at `(x, y)` has, counted on
    /// the current generation.
    fn count_neighbors(&self, x: usize, y: usize) -> (n: u32)
        requires
            self.well_formed(),
            self.in_bounds(x as int, y as int),
        ensures
            n == self.neighbor_count(x as int, y as int),
    {
        let mut n: u32 = 0;
        if x > 0 {
            if y > 0 && self.board[x - 1][y - 1] {
                n = n + 1;
            }
            if self.board[x - 1][y] {
                n = n + 1;
            }
            if y < self.dim_y - 1 && self.board[x - 1][y + 1] {
                n = n + 1;
            }
        }
        if y > 0 && self.board[x][y - 1] {
            n = n + 1;
        }
        if y < self.dim_y - 1 && self.board[x][y + 1] {
            n = n + 1;
        }
        if x < self.dim_x - 1 {
            if y > 0 && self.board[x + 1][y - 1] {
                n = n + 1;
            }
            if self.board[x + 1][y] {
                n = n + 1;
            }
            if y < self.dim_y - 1 && self.board[x + 1][y + 1] {
                n = n + 1;
            }
        }
        n
    }

    /// Advances the board by exactly one generation. Every cell of the new
    /// generation is computed from a single consistent snapshot of the old
    /// one (the next grid is built aside and swapped in at the end). Never
    /// fails; dimensions and cursor are untouched.
    pub fn step_game(&mut self)
        requires
            old(self).well_formed(),
        ensures
            final(self).well_formed(),
            final(self).width() == old(self).width(),
            final(self).height() == old(self).height(),
            final(self).cursor_spec() == old(self).cursor_spec(),
            forall|x: int, y: int|
                final(self).in_bounds(x, y) ==> final(self).cell(x, y) == old(self).next_cell(x, y),
    {
        let mut next: Vec<Vec<bool>> = Vec::with_capacity(self.dim_x);
        for x in 0..self.dim_x
            invariant
                self == old(self),
                self.well_formed(),
                next@.len() == x,
                forall|i: int|
                    0 <= i < x ==> (#[trigger] next@[i])@.len() == self.dim_y && forall|j: int|
                        0 <= j < self.dim_y ==> next@[i]@[j] == self.next_cell(i, j),
        {
            let mut col: Vec<bool> = Vec::with_capacity(self.dim_y);
            for y in 0..self.dim_y
                invariant
                    self == old(self),
                    self.well_formed(),
                    x < self.dim_x,
                    col@.len() == y,
                    forall|j: int| 0 <= j < y ==> col@[j] == self.next_cell(x as int, j),
            {
                let n = self.count_neighbors(x, y);
                let here = self.board[x][y];
                col.push(if here { n == 2 || n == 3 } else { n == 3 });
            }
            next.push(col);
        }
        self.board = next;
    }
}

/// The four movement symbols the engine understands.
pub open spec fn is_direction(dir: char) -> bool {
    dir == 'w' || dir == 'a' || dir == 's' || dir == 'd'
}

/// Where a cursor at `c` ends up after one saturating move in direction
/// `dir` on a `w` by `h` board.
pub open spec fn moved_cursor(w: int, h: int, c: (int, int), dir: char) -> (int, int) {
    if dir == 'w' {
        (c.0, if c.1 > 0 { c.1 - 1 } else { 0 })
    } else if dir == 'a' {
        (if c.0 > 0 { c.0 - 1 } else { 0 }, c.1)
    } else if dir == 's' {
        (c.0, if c.1 < h - 1 { c.1 + 1 } else { c.1 })
    } else if dir == 'd' {
        (if c.0 < w - 1 { c.0 + 1 } else { c.0 }, c.1)
    } else {
        c
    }
}

/// A column of `dim_y` dead cells.
fn dead_column(dim_y: usize) -> (c: Vec<bool>)
    ensures
        c@.len() == dim_y,
        forall|y: int| 0 <= y < dim_y ==> !c@[y],
{
    let mut c: Vec<bool> = Vec::with_capacity(dim_y);
    for _j in 0..dim_y
        invariant
            c@.len() == _j,
            forall|y: int| 0 <= y < _j ==> !c@[y],
    {
        c.push(false);
    }
    c
}

} // verus!
