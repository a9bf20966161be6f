//! The cost matrix as a vector of rows.
use vstd::prelude::*;
use crate::osa::Matrix;
use crate::osa::zero_cells;

verus! {

/// A cost matrix kept as one vector per row.
#[derive(Debug, Clone)]
pub struct VecMatrix {
    pub matrix: Vec<Vec<usize>>,
    x: usize,
    y: usize,
}

impl Matrix for VecMatrix {
    closed spec fn cells(&self) -> Seq<Seq<usize>> {
        Seq::new(self.matrix@.len(), |i: int| self.matrix@[i]@)
    }

    closed spec fn size(&self) -> (usize, usize) {
        (self.x, self.y)
    }

    fn set(&mut self, x: usize, y: usize, value: usize) {
        self.matrix[x][y] = value;
        assert(self.cells() =~= old(self).cells().update(
            x as int,
            old(self).cells()[x as int].update(y as int, value),
        ));
    }

    fn get(&self, x: usize, y: usize) -> (value: usize) {
        self.matrix[x][y]
    }

    fn new(x: usize, y: usize) -> (m: VecMatrix) {
        let m = VecMatrix { matrix: vec![vec![0; y]; x], x, y };
        assert(m.cells() =~~= zero_cells(x as nat, y as nat));
        m
    }

    fn get_last_cell(&self) -> (value: usize) {
        self.matrix[self.x - 1][self.y - 1]
    }

    fn shrink(&mut self, x: usize) {
        self.x = x;
    }

    fn get_size(&self) -> (s: (usize, usize)) {
        (self.x, self.y)
    }
}

} // verus!
