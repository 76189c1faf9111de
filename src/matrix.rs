//! The adjacency matrix of a graph, held in an `ndarray` two-dimensional
//! array: the weight of the edge between two nodes, or `None` where no edge
//! joins them.

use vstd::prelude::*;

use ndarray::Array2;

use crate::graph::Graph;
use crate::types::WeightOption;

verus! {

/// A two-dimensional array of optional weights, held in an `ndarray` array.
#[verifier::external_body]
pub struct AdjacencyMatrix {
    cells: Array2<Option<i64>>,
}

/// The cells of a matrix, row by row.
pub uninterp spec fn matrix_cells(m: AdjacencyMatrix) -> Seq<Seq<Option<i64>>>;

/// The number of columns of a matrix, which holds also where it has no rows.
pub uninterp spec fn matrix_cols(m: AdjacencyMatrix) -> nat;

/// An `n` by `n` table of `None`.
pub open spec fn empty_cells(n: nat) -> Seq<Seq<Option<i64>>> {
    Seq::new(n, |i: int| Seq::new(n, |j: int| None::<i64>))
}

/// Relies on ndarray's `Array2::from_elem`: an `n` by `n` array with every
/// cell `None`. It panics where the cell count overflows `isize` or the
/// buffer (16 bytes a cell) exceeds `isize::MAX` bytes, which `requires`
/// rules out.
#[verifier::external_body]
fn empty_matrix(n: usize) -> (m: AdjacencyMatrix)
    requires
        n * n <= isize::MAX / 16,
    ensures
        matrix_cells(m) == empty_cells(n as nat),
        matrix_cols(m) == n,
{
    AdjacencyMatrix { cells: Array2::from_elem((n, n), None) }
}

/// Relies on ndarray's `IndexMut` with an `[i, j]` index: writes the one
/// cell at row `i`, column `j`. It panics out of bounds, which `requires`
/// rules out.
#[verifier::external_body]
fn set_cell(m: &mut AdjacencyMatrix, i: usize, j: usize, v: Option<i64>)
    requires
        i < matrix_cells(*old(m)).len(),
        j < matrix_cells(*old(m))[i as int].len(),
    ensures
        matrix_cells(*final(m)) == matrix_cells(*old(m)).update(
            i as int,
            matrix_cells(*old(m))[i as int].update(j as int, v),
        ),
        matrix_cols(*final(m)) == matrix_cols(*old(m)),
{
    m.cells[[i, j]] = v;
}

impl AdjacencyMatrix {
    /// Relies on ndarray's `Index` with an `[i, j]` index: reads the cell at
    /// row `i`, column `j`. It panics out of bounds, which `requires` rules
    /// out.
    #[verifier::external_body]
    fn cell(&self, i: usize, j: usize) -> (r: Option<i64>)
        requires
            i < matrix_cells(*self).len(),
            j < matrix_cells(*self)[i as int].len(),
        ensures
            r == matrix_cells(*self)[i as int][j as int],
    {
        self.cells[[i, j]]
    }

    /// Relies on ndarray's `ArrayBase::shape`: the number of rows, and of
    /// columns in each row.
    #[verifier::external_body]
    fn dims(&self) -> (r: [usize; 2])
        ensures
            r[0] == matrix_cells(*self).len(),
            r[1] == matrix_cols(*self),
            forall|i: int| 0 <= i < matrix_cells(*self).len() ==> r[1] == #[trigger] matrix_cells(*self)[i].len(),
    {
        let s = self.cells.shape();
        [s[0], s[1]]
    }

    /// The cell at row `i`, column `j`.
    pub fn get(&self, i: usize, j: usize) -> (r: Option<i64>)
        requires
            i < matrix_cells(*self).len(),
            j < matrix_cells(*self)[i as int].len(),
        ensures
            r == matrix_cells(*self)[i as int][j as int],
    {
        self.cell(i, j)
    }

    /// The number of rows, and of columns in each row.
    pub fn shape(&self) -> (r: [usize; 2])
        ensures
            r[0] == matrix_cells(*self).len(),
            r[1] == matrix_cols(*self),
            forall|i: int| 0 <= i < matrix_cells(*self).len() ==> r[1] == #[trigger] matrix_cells(*self)[i].len(),
    {
        self.dims()
    }

    /// The cells, row by row.
    pub fn to_rows(&self) -> (r: Vec<Vec<Option<i64>>>)
        ensures
            r.len() == matrix_cells(*self).len(),
            forall|i: int| 0 <= i < r.len() ==> (#[trigger] r@[i])@ == matrix_cells(*self)[i],
    {
        let shape = self.dims();
        let mut rows: Vec<Vec<Option<i64>>> = Vec::new();
        let mut i: usize = 0;
        while i < shape[0]
            invariant
                shape[0] == matrix_cells(*self).len(),
                forall|k: int| 0 <= k < matrix_cells(*self).len() ==> shape[1] == #[trigger] matrix_cells(*self)[k].len(),
                i <= shape[0],
                rows.len() == i,
                forall|k: int| 0 <= k < i ==> (#[trigger] rows@[k])@ == matrix_cells(*self)[k],
            decreases shape[0] - i,
        {
            let mut row: Vec<Option<i64>> = Vec::new();
            let mut j: usize = 0;
            while j < shape[1]
                invariant
                    shape[0] == matrix_cells(*self).len(),
                    i < shape[0],
                    shape[1] == matrix_cells(*self)[i as int].len(),
                    j <= shape[1],
                    row@ == matrix_cells(*self)[i as int].take(j as int),
                decreases shape[1] - j,
            {
                row.push(self.cell(i, j));
                j = j + 1;
                assert(row@ =~= matrix_cells(*self)[i as int].take(j as int));
            }
            assert(row@ =~= matrix_cells(*self)[i as int]);
            rows.push(row);
            i = i + 1;
        }
        rows
    }
}

/// The cell for nodes `i` and `j` after the first `m` edges have been
/// written: the weight of the last of them that joins the two, if any.
pub open spec fn cell_after(graph: &Graph, i: int, j: int, m: nat) -> Option<i64>
    decreases m,
{
    if m == 0 {
        None
    } else {
        let e = graph.edges@[m - 1];
        if (e.lo() == i && e.hi() == j) || (e.lo() == j && e.hi() == i) {
            Some(graph.edge_weight(m - 1) as i64)
        } else {
            cell_after(graph, i, j, (m - 1) as nat)
        }
    }
}

/// The adjacency matrix's cells after the first `m` edges.
pub open spec fn cells_after(graph: &Graph, m: nat) -> Seq<Seq<Option<i64>>> {
    let n = graph.nodes.len() as nat;
    Seq::new(n, |i: int| Seq::new(n, |j: int| cell_after(graph, i, j, m)))
}

impl Graph {
    /// The node-by-node matrix of edge weights: the cell for two nodes holds
    /// the weight of the edge between them (the last such edge where there
    /// are several), and `None` where no edge joins them.
    pub fn adjacency_matrix(&self) -> (r: AdjacencyMatrix)
        requires
            self.wf(),
            self.nodes.len() * self.nodes.len() <= isize::MAX / 16,
        ensures
            matrix_cells(r) == cells_after(self, self.edges.len() as nat),
            matrix_cols(r) == self.nodes.len(),
    {
        let n = self.nodes.len();
        let mut m = empty_matrix(n);
        assert(matrix_cells(m) =~~= cells_after(self, 0));
        let mut e: usize = 0;
        while e < self.edges.len()
            invariant
                self.wf(),
                n == self.nodes.len(),
                e <= self.edges.len(),
                matrix_cells(m) == cells_after(self, e as nat),
                matrix_cols(m) == n,
            decreases self.edges.len() - e,
        {
            let lo = self.edges[e].node_indices[0];
            let hi = self.edges[e].node_indices[1];
            assert(crate::graph::ends_ok(self.edges@[e as int].shape(), n as int));
            let w = match self.edges[e].weight {
                WeightOption::Specified(w) => w,
                WeightOption::Computed => 0,
            };
            set_cell(&mut m, lo, hi, Some(w));
            set_cell(&mut m, hi, lo, Some(w));
            assert(matrix_cells(m) =~~= cells_after(self, (e + 1) as nat));
            e = e + 1;
        }
        m
    }
}

} // verus!
