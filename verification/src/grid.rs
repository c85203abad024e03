//! Coordinates, key events and raw switch samples of a key matrix.

use vstd::prelude::*;

verus! {

/// Position of one switch in the matrix.
#[derive(Clone, Copy, Debug, PartialEq, Eq, Structural)]
pub struct Coord {
    pub row: usize,
    pub col: usize,
}

/// Direction of a key event.
#[derive(Clone, Copy, Debug, PartialEq, Eq, Structural)]
pub enum Direction {
    Press,
    Release,
}

/// A debounced change of one switch.
#[derive(Clone, Copy, Debug, PartialEq, Eq, Structural)]
pub struct Event {
    pub coord: Coord,
    pub direction: Direction,
}

/// The direction that a switch reports when its contact reads `closed`.
pub open spec fn direction_of(closed: bool) -> Direction {
    if closed {
        Direction::Press
    } else {
        Direction::Release
    }
}

/// Whether `cells` has `rows` rows of `cols` entries each.
pub open spec fn rectangular<T>(cells: Seq<Seq<T>>, rows: int, cols: int) -> bool {
    &&& cells.len() == rows
    &&& forall|r: int| 0 <= r < rows ==> (#[trigger] cells[r]).len() == cols
}

/// The rows of a nested vector as sequences.
pub open spec fn rows_of<T>(cells: Seq<Vec<T>>) -> Seq<Seq<T>> {
    Seq::new(cells.len(), |r: int| cells[r]@)
}

/// One snapshot of the contact state of every switch.
pub struct RawGrid {
    cells: Vec<Vec<bool>>,
    cols: usize,
}

impl RawGrid {
    /// Contact states by row and column.
    pub closed spec fn samples(&self) -> Seq<Seq<bool>> {
        rows_of(self.cells@)
    }

    /// Number of rows.
    pub closed spec fn height(&self) -> int {
        self.cells@.len() as int
    }

    /// Number of columns.
    pub closed spec fn width(&self) -> int {
        self.cols as int
    }

    /// The snapshot has `height()` rows of `width()` samples.
    pub open spec fn wf(&self) -> bool {
        rectangular(self.samples(), self.height(), self.width())
    }

    /// A snapshot with every contact open.
    pub fn released(rows: usize, cols: usize) -> (grid: RawGrid)
        ensures
            grid.wf(),
            grid.height() == rows,
            grid.width() == cols,
            forall|r: int, c: int|
                0 <= r < rows && 0 <= c < cols ==> !(#[trigger] grid.samples()[r][c]),
    {
        let mut cells: Vec<Vec<bool>> = Vec::new();
        let mut r: usize = 0;
        while r < rows
            invariant
                r <= rows,
                cells@.len() == r,
                forall|i: int| 0 <= i < r ==> (#[trigger] cells@[i])@.len() == cols,
                forall|i: int, j: int| 0 <= i < r && 0 <= j < cols ==> !(#[trigger] cells@[i]@[j]),
            decreases rows - r,
        {
            let mut row: Vec<bool> = Vec::new();
            let mut c: usize = 0;
            while c < cols
                invariant
                    c <= cols,
                    row@.len() == c,
                    forall|j: int| 0 <= j < c ==> !(#[trigger] row@[j]),
                decreases cols - c,
            {
                row.push(false);
                c += 1;
            }
            cells.push(row);
            r += 1;
        }
        RawGrid { cells, cols }
    }

    /// Builds a snapshot from rows of samples; `None` unless every row has
    /// `cols` entries.
    pub fn from_rows(cells: Vec<Vec<bool>>, cols: usize) -> (grid: Option<RawGrid>)
        ensures
            grid is Some <==> rectangular(rows_of(cells@), cells@.len() as int, cols as int),
            grid matches Some(g) ==> g.wf() && g.samples() == rows_of(cells@) && g.height()
                == cells@.len() && g.width() == cols,
    {
        let mut r: usize = 0;
        while r < cells.len()
            invariant
                r <= cells@.len(),
                forall|i: int| 0 <= i < r ==> (#[trigger] rows_of(cells@)[i]).len() == cols,
            decreases cells@.len() - r,
        {
            if cells[r].len() != cols {
                assert(rows_of(cells@)[r as int].len() != cols);
                return None;
            }
            r += 1;
        }
        Some(RawGrid { cells, cols })
    }

    /// Number of rows.
    pub fn rows(&self) -> (n: usize)
        ensures
            n == self.height(),
    {
        self.cells.len()
    }

    /// Number of columns.
    pub fn cols(&self) -> (n: usize)
        ensures
            n == self.width(),
    {
        self.cols
    }

    /// The contact state at `row`, `col`.
    pub fn get(&self, row: usize, col: usize) -> (closed: bool)
        requires
            self.wf(),
            row < self.height(),
            col < self.width(),
        ensures
            closed == self.samples()[row as int][col as int],
    {
        assert(self.samples()[row as int] == self.cells@[row as int]@);
        self.cells[row][col]
    }

    /// Records the contact state at `row`, `col`.
    pub fn set(&mut self, row: usize, col: usize, closed: bool)
        requires
            old(self).wf(),
            row < old(self).height(),
            col < old(self).width(),
        ensures
            final(self).wf(),
            final(self).height() == old(self).height(),
            final(self).width() == old(self).width(),
            final(self).samples() == old(self).samples().update(
                row as int,
                old(self).samples()[row as int].update(col as int, closed),
            ),
    {
        assert(self.samples()[row as int] == self.cells@[row as int]@);
        self.cells[row][col] = closed;
        proof {
            let before = old(self).samples();
            let after = self.samples();
            let expected = before.update(row as int, before[row as int].update(col as int, closed));
            assert forall|r: int| 0 <= r < after.len() implies after[r] == expected[r] by {
                assert(before[r] == old(self).cells@[r]@);
            }
            assert(after =~= expected);
        }
    }
}

} // verus!
