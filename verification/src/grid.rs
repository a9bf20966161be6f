//! The cost matrix over the `grid` crate's flat, row-major table.
use vstd::prelude::*;
use crate::osa::Matrix;
use crate::osa::zero_cells;

verus! {

/// `grid::Grid`, a table of cells kept in one buffer, row after row.
/// Nothing is known of a value of it but what the functions below say.
#[verifier::external_type_specification]
#[verifier::external_body]
#[verifier::reject_recursive_types(T)]
pub struct ExGrid<T>(::grid::Grid<T>);

/// The cells that a grid holds: one sequence for each of its rows, from the
/// top, each with one cell for each of its columns, from the left.
pub uninterp spec fn grid_cells(g: ::grid::Grid<usize>) -> Seq<Seq<usize>>;

/// `Grid::new`. It is believed to give a grid of `rows` by `cols` cells
/// that each hold the default value of `usize`, zero; and, where no rows
/// or no columns are asked for, a grid with neither. It panics where
/// `rows * cols` overflows, which the precondition rules out.
#[verifier::external_body]
fn grid_new(rows: usize, cols: usize) -> (g: ::grid::Grid<usize>)
    requires
        rows * cols <= usize::MAX,
    ensures
        rows > 0 && cols > 0 ==> grid_cells(g) == zero_cells(rows as nat, cols as nat),
        rows == 0 || cols == 0 ==> grid_cells(g).len() == 0,
{
    ::grid::Grid::new(rows, cols)
}

/// `Index<usize>` of `Grid`, which gives a row as a slice, and the slice's
/// own indexing by column. Together they are believed to give the cell in
/// that row and column. Outside the grid they panic, which the precondition
/// rules out.
#[verifier::external_body]
fn grid_get(g: &::grid::Grid<usize>, row: usize, col: usize) -> (value: usize)
    requires
        row < grid_cells(*g).len(),
        col < grid_cells(*g)[row as int].len(),
    ensures
        value == grid_cells(*g)[row as int][col as int],
{
    g[row][col]
}

/// `IndexMut<usize>` of `Grid`, which gives a row as a mutable slice, and an
/// assignment to the slice at a column. Together they are believed to
/// change the cell in that row and column and no other, and to leave the
/// grid's shape as it is. Outside the grid they panic, which the
/// precondition rules out.
#[verifier::external_body]
fn grid_set(g: &mut ::grid::Grid<usize>, row: usize, col: usize, value: usize)
    requires
        row < grid_cells(*old(g)).len(),
        col < grid_cells(*old(g))[row as int].len(),
    ensures
        grid_cells(*final(g)) == grid_cells(*old(g)).update(
            row as int,
            grid_cells(*old(g))[row as int].update(col as int, value),
        ),
{
    g[row][col] = value;
}

/// A cost matrix kept in one flat buffer.
pub struct GridMatrix {
    pub matrix: ::grid::Grid<usize>,
    x: usize,
    y: usize,
}

impl Matrix for GridMatrix {
    closed spec fn cells(&self) -> Seq<Seq<usize>> {
        grid_cells(self.matrix)
    }

    closed spec fn size(&self) -> (usize, usize) {
        (self.x, self.y)
    }

    fn set(&mut self, x: usize, y: usize, value: usize) {
        grid_set(&mut self.matrix, x, y, value);
    }

    fn get(&self, x: usize, y: usize) -> (value: usize) {
        grid_get(&self.matrix, x, y)
    }

    fn new(x: usize, y: usize) -> (m: GridMatrix) {
        GridMatrix { matrix: grid_new(x, y), x, y }
    }

    fn get_last_cell(&self) -> (value: usize) {
        grid_get(&self.matrix, self.x - 1, self.y - 1)
    }

    fn shrink(&mut self, x: usize) {
        self.x = x;
    }

    fn get_size(&self) -> (s: (usize, usize)) {
        (self.x, self.y)
    }
}

} // verus!
