use vstd::prelude::*;
use crate::text::{is_letter, letter_to_index};

verus! {

/// A cell position as (row, column).
pub type Point = (usize, usize);

/// The eight compass moves between neighbouring cells.
#[derive(Clone, Copy, Debug, PartialEq, Eq, Structural)]
pub enum Direction {
    Up,
    UpperLeft,
    UpperRight,
    Down,
    LowerLeft,
    LowerRight,
    Left,
    Right,
}

/// The (row, column) change of a move.
pub open spec fn delta(d: Direction) -> (int, int) {
    match d {
        Direction::Up => (-1, 0),
        Direction::UpperLeft => (-1, -1),
        Direction::UpperRight => (-1, 1),
        Direction::Down => (1, 0),
        Direction::LowerLeft => (1, -1),
        Direction::LowerRight => (1, 1),
        Direction::Left => (0, -1),
        Direction::Right => (0, 1),
    }
}

/// Where a move leads from `p`, bounds aside.
pub open spec fn step(p: (int, int), d: Direction) -> (int, int) {
    (p.0 + delta(d).0, p.1 + delta(d).1)
}

/// One square of the grid.
#[derive(Clone, Copy, Debug, PartialEq, Eq, Structural)]
pub struct Cell {
    pub letter: char,
}

/// Why rows could not be made into a grid.
#[derive(Clone, Copy, Debug, PartialEq, Eq, Structural)]
pub enum GridError {
    /// There are no rows at all.
    NoRows,
    /// Some row is longer or shorter than the first.
    RowsSizeMismatch,
}

/// Whether every row has the length of the first.
pub open spec fn rows_even(rows: Seq<&[char]>) -> bool {
    forall|i: int| 0 <= i < rows.len() ==> (#[trigger] rows[i])@.len() == rows[0]@.len()
}

/// Appends one cell for each letter of `row`.
fn push_row(cells: &mut Vec<char>, row: &[char])
    ensures
        final(cells)@.len() == old(cells)@.len() + row@.len(),
        forall|k: int| 0 <= k < old(cells)@.len() ==> #[trigger] final(cells)@[k] == old(cells)@[k],
        forall|b: int|
            0 <= b < row@.len() ==> #[trigger] final(cells)@[old(cells)@.len() + b]== row@[b],
{
    let ghost start = cells@;
    let mut j: usize = 0;
    while j < row.len()
        invariant
            j <= row@.len(),
            cells@.len() == start.len() + j,
            start == old(cells)@,
            forall|k: int| 0 <= k < start.len() ==> #[trigger] cells@[k] == start[k],
            forall|b: int| 0 <= b < j ==> #[trigger] cells@[start.len() + b]== row@[b],
        decreases row@.len() - j,
    {
        cells.push(row[j]);
        j = j + 1;
    }
}

/// A rectangle of letters, stored row after row.
pub struct Grid {
    cells: Vec<char>,
    height: usize,
    width: usize,
    capacity: usize,
}

impl Grid {
    pub closed spec fn height(self) -> int {
        self.height as int
    }

    pub closed spec fn width(self) -> int {
        self.width as int
    }

    pub closed spec fn wf(self) -> bool {
        &&& self.cells@.len() == self.width * self.height
        &&& self.capacity == self.cells@.len()
    }

    pub open spec fn in_bounds(self, p: (int, int)) -> bool {
        0 <= p.0 < self.height() && 0 <= p.1 < self.width()
    }

    /// The letter in row `r`, column `c`.
    pub closed spec fn letter(self, p: (int, int)) -> char {
        self.cells@[p.0 * self.width + p.1]
    }

    /// The grid has the given rows, as many and as long, letter for letter.
    pub open spec fn holds_rows(self, rows: Seq<&[char]>) -> bool {
        &&& self.height() == rows.len()
        &&& rows.len() > 0 ==> self.width() == rows[0]@.len()
        &&& forall|i: int, j: int|
            0 <= i < self.height() && 0 <= j < self.width() ==> self.letter((i, j))
                == rows[i]@[j]
    }

    pub open spec fn capacity(self) -> int {
        self.height() * self.width()
    }

    proof fn lemma_index_in_bounds(self, p: (int, int))
        requires
            self.wf(),
            self.in_bounds(p),
        ensures
            0 <= p.0 * self.width + p.1 < self.cells@.len(),
    {
        let w = self.width as int;
        let h = self.height as int;
        assert(0 <= p.0 * w + p.1 < w * h) by (nonlinear_arith)
            requires
                0 <= p.0 < h,
                0 <= p.1 < w,
        ;
    }

    /// Builds a grid from its rows; all rows must be as long as the first.
    pub fn new(rows: &[&[char]]) -> (r: Result<Grid, GridError>)
        ensures
            rows@.len() == 0 ==> r == Err::<Grid, GridError>(GridError::NoRows),
            rows@.len() > 0 && !rows_even(rows@) ==> r == Err::<Grid, GridError>(
                GridError::RowsSizeMismatch,
            ),
            rows@.len() > 0 && rows_even(rows@) ==> (r matches Ok(g) && g.wf() && g.holds_rows(
                rows@,
            )),
    {
        if rows.len() == 0 {
            return Err(GridError::NoRows);
        }
        let width = rows[0].len();
        let height = rows.len();
        let mut cells: Vec<char> = Vec::new();
        let mut i: usize = 0;
        while i < height
            invariant
                height == rows@.len(),
                width == rows@[0]@.len(),
                i <= height,
                cells@.len() == i * width,
                forall|k: int| 0 <= k < i ==> (#[trigger] rows@[k])@.len() == width,
                forall|a: int, b: int|
                    0 <= a < i && 0 <= b < width ==> #[trigger] cells@[a * width + b]
                        == rows@[a]@[b],
            decreases height - i,
        {
            let row = rows[i];
            if row.len() != width {
                return Err(GridError::RowsSizeMismatch);
            }
            let ghost prev = cells@;
            push_row(&mut cells, row);
            proof {
                assert forall|a: int, b: int|
                    0 <= a < i + 1 && 0 <= b < width implies #[trigger] cells@[a * width + b]
                    == rows@[a]@[b] by {
                    assert(0 <= a * width + b < (i + 1) * width) by (nonlinear_arith)
                        requires
                            0 <= a < i + 1,
                            0 <= b < width,
                    ;
                    if a < i {
                        assert(a * width + b < i * width) by (nonlinear_arith)
                            requires
                                0 <= a < i,
                                0 <= b < width,
                        ;
                        assert(cells@[a * width + b] == prev[a * width + b]);
                    } else {
                        assert(a * width + b == i * width + b) by (nonlinear_arith)
                            requires
                                a == i,
                        ;
                        assert(cells@[prev.len() + b]== row@[b]);
                    }
                }
                assert(cells@.len() == (i + 1) * width) by (nonlinear_arith)
                    requires
                        cells@.len() == i * width + width,
                ;
            }
            i = i + 1;
        }
        let capacity = cells.len();
        assert(cells@.len() == width * height) by (nonlinear_arith)
            requires
                cells@.len() == height * width,
        ;
        Ok(Grid { cells, height, width, capacity })
    }

    /// The row-major position of a cell.
    pub open spec fn index(self, p: (int, int)) -> int {
        p.0 * self.width() + p.1
    }

    /// Every cell holds an ASCII letter.
    pub open spec fn letters_only(self) -> bool {
        forall|p: (int, int)| self.in_bounds(p) ==> is_letter(#[trigger] self.letter(p))
    }

    /// Distinct cells have distinct positions, all below the capacity.
    pub proof fn lemma_index(self, p: (int, int), q: (int, int))
        requires
            self.in_bounds(p),
            self.in_bounds(q),
        ensures
            0 <= self.index(p) < self.capacity(),
            self.index(p) == self.index(q) ==> p == q,
    {
        let w = self.width();
        let h = self.height();
        assert(0 <= p.0 * w + p.1 < h * w) by (nonlinear_arith)
            requires
                0 <= p.0 < h,
                0 <= p.1 < w,
        ;
        if self.index(p) == self.index(q) {
            if p.0 < q.0 {
                assert(p.0 * w + p.1 < q.0 * w + q.1) by (nonlinear_arith)
                    requires
                        p.0 < q.0,
                        0 <= p.1 < w,
                        0 <= q.1,
                ;
            } else if q.0 < p.0 {
                assert(q.0 * w + q.1 < p.0 * w + p.1) by (nonlinear_arith)
                    requires
                        q.0 < p.0,
                        0 <= q.1 < w,
                        0 <= p.1,
                ;
            }
        }
    }

    /// The row-major position of a cell inside the grid.
    pub fn index_of(&self, p: Point) -> (r: usize)
        requires
            self.wf(),
            self.in_bounds((p.0 as int, p.1 as int)),
        ensures
            r == self.index((p.0 as int, p.1 as int)),
            r < self.capacity(),
    {
        proof {
            self.lemma_index((p.0 as int, p.1 as int), (p.0 as int, p.1 as int));
            self.lemma_index_in_bounds((p.0 as int, p.1 as int));
        }
        p.0 * self.width + p.1
    }

    pub fn get_height(&self) -> (r: usize)
        ensures
            r == self.height(),
    {
        self.height
    }

    pub fn get_width(&self) -> (r: usize)
        ensures
            r == self.width(),
    {
        self.width
    }

    /// Whether every cell holds an ASCII letter.
    pub fn has_only_letters(&self) -> (r: bool)
        requires
            self.wf(),
        ensures
            r == self.letters_only(),
    {
        let mut i: usize = 0;
        while i < self.height
            invariant
                self.wf(),
                i <= self.height,
                forall|p: (int, int)|
                    self.in_bounds(p) && p.0 < i ==> is_letter(#[trigger] self.letter(p)),
            decreases self.height - i,
        {
            let mut j: usize = 0;
            while j < self.width
                invariant
                    self.wf(),
                    i < self.height,
                    j <= self.width,
                    forall|p: (int, int)|
                        self.in_bounds(p) && (p.0 < i || (p.0 == i && p.1 < j)) ==> is_letter(
                            #[trigger] self.letter(p),
                        ),
                decreases self.width - j,
            {
                let c = self.get_letter((i, j));
                if letter_to_index(c).is_none() {
                    assert(!is_letter(self.letter((i as int, j as int))));
                    return false;
                }
                j = j + 1;
            }
            i = i + 1;
        }
        true
    }

    /// Whether `p` lies inside the grid.
    pub fn validate_point(&self, row: usize, col: usize) -> (r: bool)
        ensures
            r == self.in_bounds((row as int, col as int)),
    {
        row < self.height && col < self.width
    }

    /// The cell at `p`, or `None` outside the grid.
    pub fn get_cell(&self, p: Point) -> (r: Option<Cell>)
        requires
            self.wf(),
        ensures
            r is Some <==> self.in_bounds((p.0 as int, p.1 as int)),
            r matches Some(cell) ==> cell.letter == self.letter((p.0 as int, p.1 as int)),
    {
        if self.validate_point(p.0, p.1) {
            proof {
                self.lemma_index_in_bounds((p.0 as int, p.1 as int));
            }
            Some(Cell { letter: self.cells[p.0 * self.width + p.1] })
        } else {
            None
        }
    }

    /// The letter at `p`, which must lie inside the grid.
    pub fn get_letter(&self, p: Point) -> (r: char)
        requires
            self.wf(),
            self.in_bounds((p.0 as int, p.1 as int)),
        ensures
            r == self.letter((p.0 as int, p.1 as int)),
    {
        proof {
            self.lemma_index_in_bounds((p.0 as int, p.1 as int));
        }
        self.cells[p.0 * self.width + p.1]
    }

    /// The number of cells.
    pub fn get_capacity(&self) -> (r: usize)
        requires
            self.wf(),
        ensures
            r == self.capacity(),
    {
        proof {
            assert(self.width * self.height == self.height * self.width) by (nonlinear_arith);
        }
        self.capacity
    }

    /// The cell with row-major position `index`.
    pub fn get_point_from_index(&self, index: usize) -> (r: Point)
        requires
            self.wf(),
            index < self.capacity(),
        ensures
            r.0 as int == index as int / self.width(),
            r.1 as int == index as int % self.width(),
            self.in_bounds((r.0 as int, r.1 as int)),
    {
        let w = self.width;
        let h = self.height;
        assert(w > 0) by (nonlinear_arith)
            requires
                index < h * w,
        ;
        assert(index / w < h) by (nonlinear_arith)
            requires
                index < h * w,
                w > 0,
        ;
        (index / w, index % w)
    }

    /// The neighbour of `p` in direction `d`, or `None` where the move leaves
    /// the grid.
    pub fn next(&self, p: Point, d: &Direction) -> (r: Option<Point>)
        ensures
            r matches Some(q) ==> (q.0 as int, q.1 as int) == step((p.0 as int, p.1 as int), *d),
            r is Some <==> self.in_bounds(step((p.0 as int, p.1 as int), *d)),
    {
        let row = match d {
            Direction::Up | Direction::UpperLeft | Direction::UpperRight => p.0.checked_sub(1),
            Direction::Down | Direction::LowerLeft | Direction::LowerRight => p.0.checked_add(1),
            Direction::Left | Direction::Right => Some(p.0),
        };
        let col = match d {
            Direction::Left | Direction::UpperLeft | Direction::LowerLeft => p.1.checked_sub(1),
            Direction::Right | Direction::UpperRight | Direction::LowerRight => p.1.checked_add(1),
            Direction::Up | Direction::Down => Some(p.1),
        };
        match (row, col) {
            (Some(nr), Some(nc)) => {
                if self.validate_point(nr, nc) {
                    Some((nr, nc))
                } else {
                    None
                }
            },
            _ => None,
        }
    }
}

} // verus!
