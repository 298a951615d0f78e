//! A matrix: a tensor with its row and column counts recorded at
//! construction time, plus vector-extraction convenience.

use vstd::prelude::*;

verus! {

use crate::linalg;
use crate::linalg::BinOp;
use crate::linalg::Grid;
use crate::linalg::Tensor;
use crate::linalg::UnOp;
use crate::linalg::adj_n;
use crate::linalg::agg_cols_n;
use crate::linalg::agg_n;
use crate::linalg::agg_rows_n;
use crate::linalg::combine_n;
use crate::linalg::det_n;
use crate::linalg::dot_n;
use crate::linalg::g_cols;
use crate::linalg::g_empty;
use crate::linalg::inv_n;
use crate::linalg::magnitude_n;
use crate::linalg::map_val;
use crate::linalg::tr_x;
use crate::linalg::zero_grid;
use crate::rat::Rat;
use crate::rat::opt_v;
use crate::vector::Vector;

/// The identity grid of size `n`.
pub open spec fn identity_grid(n: nat) -> Grid {
    Seq::new(
        n,
        |i: int| Seq::new(
            n,
            |j: int| if i == j {
                (1int, 1int)
            } else {
                (0int, 1int)
            },
        ),
    )
}

pub struct Matrix {
    pub rows: usize,
    pub cols: usize,
    pub data: Tensor,
}

impl Matrix {
    /// The recorded shape agrees with the grid.
    pub open spec fn wf(self) -> bool {
        &&& self.data.wf()
        &&& self.rows == self.data@.len()
        &&& self.cols == g_cols(self.data@)
    }

    pub fn get_tensor(&self) -> (r: &Tensor)
        ensures
            r == &self.data,
    {
        &self.data
    }

    /// A zero-filled matrix of the given shape.
    pub fn new(rows: usize, cols: usize) -> (r: Matrix)
        ensures
            r.wf(),
            r.rows == rows,
            rows > 0 ==> r.cols == cols,
            r.data@ == zero_grid(rows as nat, cols as nat),
    {
        let data = linalg::create_tensor(rows, cols);
        Matrix { rows, cols: if rows > 0 { cols } else { 0 }, data }
    }

    /// Wrap a tensor, recording its shape.
    pub fn from(tensor: Tensor) -> (r: Matrix)
        requires
            tensor.wf(),
        ensures
            r.wf(),
            r.data == tensor,
    {
        let rows = linalg::rows(&tensor);
        let cols = if rows == 0 {
            0
        } else {
            linalg::columns(&tensor)
        };
        Matrix { rows, cols, data: tensor }
    }

    /// The identity matrix of the given size.
    pub fn identity(size: usize) -> (r: Matrix)
        ensures
            r.wf(),
            r.rows == size,
            r.cols == if size > 0 {
                size as int
            } else {
                0
            },
            r.data@ == identity_grid(size as nat),
    {
        let mut data: Vec<Vec<Rat>> = Vec::new();
        let mut i: usize = 0;
        while i < size
            invariant
                i <= size,
                data@.len() == i,
                forall|r2: int| #![trigger data@[r2]]
                    0 <= r2 < i ==> data@[r2]@.len() == size && forall|c2: int|
                        0 <= c2 < size ==> (#[trigger] data@[r2]@[c2])@ == identity_grid(
                            size as nat,
                        )[r2][c2] && data@[r2]@[c2].wf(),
            decreases size - i,
        {
            let mut row: Vec<Rat> = Vec::new();
            let mut j: usize = 0;
            while j < size
                invariant
                    j <= size,
                    i < size,
                    row@.len() == j,
                    forall|c2: int|
                        0 <= c2 < j ==> (#[trigger] row@[c2])@ == identity_grid(
                            size as nat,
                        )[i as int][c2] && row@[c2].wf(),
                decreases size - j,
            {
                if i == j {
                    row.push(Rat::one());
                } else {
                    row.push(Rat::zero());
                }
                j += 1;
            }
            data.push(row);
            i += 1;
        }
        let t = Tensor { data };
        proof {
            assert(t@ =~~= identity_grid(size as nat));
        }
        Matrix { rows: size, cols: if size > 0 { size } else { 0 }, data: t }
    }

    /// Interpret a single-row or single-column matrix as a 3-component
    /// vector, padding absent components with zero.
    pub fn to_vector(&self) -> (r: Vector)
        requires
            self.wf(),
        ensures
            r.wf(),
            self.data@.len() == 1 ==> r.x@ == (if g_cols(self.data@) >= 1 {
                self.data@[0][0]
            } else {
                (0int, 1int)
            }) && r.y@ == (if g_cols(self.data@) >= 2 {
                self.data@[0][1]
            } else {
                (0int, 1int)
            }) && r.z@ == (if g_cols(self.data@) >= 3 {
                self.data@[0][2]
            } else {
                (0int, 1int)
            }),
            self.data@.len() != 1 ==> r.x@ == (if self.data@.len() >= 1 && g_cols(self.data@) >= 1 {
                self.data@[0][0]
            } else {
                (0int, 1int)
            }) && r.y@ == (if self.data@.len() >= 2 && g_cols(self.data@) >= 1 {
                self.data@[1][0]
            } else {
                (0int, 1int)
            }) && r.z@ == (if self.data@.len() >= 3 && g_cols(self.data@) >= 1 {
                self.data@[2][0]
            } else {
                (0int, 1int)
            }),
    {
        let n = linalg::rows(&self.data);
        let w = if n == 0 {
            0
        } else {
            linalg::columns(&self.data)
        };
        if n == 1 {
            let x = if w >= 1 {
                linalg::get(&self.data, 0, 0)
            } else {
                Rat::zero()
            };
            let y = if w >= 2 {
                linalg::get(&self.data, 0, 1)
            } else {
                Rat::zero()
            };
            let z = if w >= 3 {
                linalg::get(&self.data, 0, 2)
            } else {
                Rat::zero()
            };
            Vector::new_3d(x, y, z)
        } else {
            let x = if n >= 1 && w >= 1 {
                linalg::get(&self.data, 0, 0)
            } else {
                Rat::zero()
            };
            let y = if n >= 2 && w >= 1 {
                linalg::get(&self.data, 1, 0)
            } else {
                Rat::zero()
            };
            let z = if n >= 3 && w >= 1 {
                linalg::get(&self.data, 2, 0)
            } else {
                Rat::zero()
            };
            Vector::new_3d(x, y, z)
        }
    }

    /// The matrix product.
    pub fn dot(&self, other: &Matrix) -> (r: Option<Matrix>)
        requires
            self.wf(),
            other.wf(),
            !g_empty(self.data@) && !g_empty(other.data@) ==> g_cols(self.data@) == other.data@.len(),
        ensures
            r matches Some(m) ==> m.wf() && Some(m.data@) == dot_n(self.data@, other.data@),
            r is Some <==> dot_n(self.data@, other.data@) is Some,
    {
        match linalg::dot(&self.data, &other.data) {
            Some(t) => Some(Matrix::from(t)),
            None => None,
        }
    }

    /// The Euclidean norm of all entries.
    pub fn magnitude(&self) -> (r: Option<Rat>)
        requires
            self.wf(),
        ensures
            opt_v(r) == magnitude_n(self.data@),
    {
        linalg::magnitude(&self.data)
    }

    pub fn transpose(&self) -> (r: Matrix)
        requires
            self.wf(),
            self.data@.len() >= 1,
        ensures
            r.wf(),
            r.data@ == tr_x(self.data@),
    {
        Matrix::from(linalg::transpose(&self.data))
    }

    /// Apply a unary operator elementwise.
    pub fn map(&self, op: UnOp) -> (r: Matrix)
        requires
            self.wf(),
        ensures
            r.wf(),
            r.data@ == map_val(op, self.data@),
    {
        Matrix::from(linalg::map(&self.data, op))
    }

    /// Apply a binary operator elementwise against another matrix of the
    /// same shape.
    pub fn combine(&self, other: &Matrix, op: BinOp) -> (r: Option<Matrix>)
        requires
            self.wf(),
            other.wf(),
            self.data@.len() >= 1,
            self.data@.len() == other.data@.len(),
            g_cols(self.data@) == g_cols(other.data@),
        ensures
            r matches Some(m) ==> m.wf() && Some(m.data@) == combine_n(
                op,
                self.data@,
                other.data@,
            ),
            r is Some <==> combine_n(op, self.data@, other.data@) is Some,
    {
        match linalg::combine(&self.data, &other.data, op) {
            Some(t) => Some(Matrix::from(t)),
            None => None,
        }
    }

    /// Fold all entries onto `initial_value`, row-major.
    pub fn aggregate(&self, initial_value: Rat, op: BinOp) -> (r: Option<Rat>)
        requires
            self.wf(),
            initial_value.wf(),
        ensures
            opt_v(r) == agg_n(op, self.data@, initial_value@, self.data@.len()),
    {
        linalg::aggregate(&self.data, initial_value, op)
    }

    /// Fold each row independently, producing an Nx1 matrix.
    pub fn aggregate_rows(&self, initial_value: Rat, op: BinOp) -> (r: Option<Matrix>)
        requires
            self.wf(),
            initial_value.wf(),
        ensures
            r matches Some(m) ==> m.wf() && Some(m.data@) == agg_rows_n(
                op,
                self.data@,
                initial_value@,
            ),
            r is Some <==> agg_rows_n(op, self.data@, initial_value@) is Some,
    {
        match linalg::aggregate_rows(&self.data, initial_value, op) {
            Some(t) => Some(Matrix::from(t)),
            None => None,
        }
    }

    /// Fold each column independently, producing a 1xN matrix.
    pub fn aggregate_columns(&self, initial_value: Rat, op: BinOp) -> (r: Option<Matrix>)
        requires
            self.wf(),
            initial_value.wf(),
        ensures
            r matches Some(m) ==> m.wf() && Some(m.data@) == agg_cols_n(
                op,
                self.data@,
                initial_value@,
            ),
            r is Some <==> agg_cols_n(op, self.data@, initial_value@) is Some,
    {
        match linalg::aggregate_columns(&self.data, initial_value, op) {
            Some(t) => Some(Matrix::from(t)),
            None => None,
        }
    }

    /// The inverse; a singular matrix yields a zero matrix of the same
    /// shape.
    pub fn inverse(&self) -> (r: Option<Matrix>)
        requires
            self.wf(),
            self.data@.len() >= 1,
            self.data@.len() == g_cols(self.data@),
            self.data@.len() == 1 ==> self.data@[0][0].0 == 0,
        ensures
            r matches Some(m) ==> m.wf() && Some(m.data@) == inv_n(self.data@),
            r is Some <==> inv_n(self.data@) is Some,
    {
        match linalg::inverse(&self.data) {
            Some(t) => Some(Matrix::from(t)),
            None => None,
        }
    }

    /// The matrix of signed cofactor determinants.
    pub fn adjugate(&self) -> (r: Option<Matrix>)
        requires
            self.wf(),
            self.data@.len() >= 2,
            self.data@.len() == g_cols(self.data@),
        ensures
            r matches Some(m) ==> m.wf() && Some(m.data@) == adj_n(self.data@),
            r is Some <==> adj_n(self.data@) is Some,
    {
        match linalg::adjugate(&self.data) {
            Some(t) => Some(Matrix::from(t)),
            None => None,
        }
    }

    /// The determinant.
    pub fn determinant(&self) -> (r: Option<Rat>)
        requires
            self.wf(),
            self.data@.len() >= 1,
            self.data@.len() == g_cols(self.data@),
        ensures
            opt_v(r) == det_n(self.data@),
    {
        linalg::determinant(&self.data)
    }
}

} // verus!
