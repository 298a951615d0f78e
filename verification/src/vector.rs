//! A 3-component vector with named components, dual-represented as a
//! column tensor.

use vstd::prelude::*;

verus! {

use crate::linalg;
use crate::linalg::Grid;
use crate::linalg::Tensor;
use crate::linalg::UnOp;
use crate::linalg::dot_n;
use crate::linalg::g_cols;
use crate::linalg::tr_x;
use crate::linalg::uop_n;
use crate::rat::Rat;
use crate::rat::div_n;
use crate::rat::mul_n;
use crate::rat::q_near_zero;
use crate::rat::sub_n;

/// Component `i` of a column grid, absent entries read as zero.
pub open spec fn vec_comp(g: Grid, i: int) -> (int, int) {
    if 0 <= i < g.len() && g[i].len() >= 1 {
        g[i][0]
    } else {
        (0int, 1int)
    }
}

/// One cross-product component: `a1 * a2 - b1 * b2`.
pub open spec fn cross_comp_n(a1: (int, int), a2: (int, int), b1: (int, int), b2: (int, int)) -> Option<
    (int, int),
> {
    match mul_n(a1, a2) {
        None => None,
        Some(p) => match mul_n(b1, b2) {
            None => None,
            Some(q) => sub_n(p, q),
        },
    }
}

pub struct Vector {
    pub x: Rat,
    pub y: Rat,
    pub z: Rat,
    pub data: Tensor,
}

impl Vector {
    /// The components are well formed and agree with the column tensor.
    pub open spec fn wf(self) -> bool {
        &&& self.x.wf() && self.y.wf() && self.z.wf()
        &&& self.data.wf()
        &&& self.x@ == vec_comp(self.data@, 0)
        &&& self.y@ == vec_comp(self.data@, 1)
        &&& self.z@ == vec_comp(self.data@, 2)
    }

    pub fn get_tensor(&self) -> (r: &Tensor)
        ensures
            r == &self.data,
    {
        &self.data
    }

    /// The vector `(x, y, 0)`.
    pub fn new_2d(x: Rat, y: Rat) -> (r: Vector)
        requires
            x.wf(),
            y.wf(),
        ensures
            r.wf(),
            r.x@ == x@ && r.y@ == y@ && r.z@ == (0int, 1int),
            r.data@.len() == 3 && g_cols(r.data@) == 1,
    {
        Vector::new_3d(x, y, Rat::zero())
    }

    /// The vector `(x, y, z)`, stored as a 3x1 column.
    pub fn new_3d(x: Rat, y: Rat, z: Rat) -> (r: Vector)
        requires
            x.wf(),
            y.wf(),
            z.wf(),
        ensures
            r.wf(),
            r.x@ == x@ && r.y@ == y@ && r.z@ == z@,
            r.data@.len() == 3 && g_cols(r.data@) == 1,
            r.data@[0][0] == x@ && r.data@[1][0] == y@ && r.data@[2][0] == z@,
    {
        let mut data: Vec<Vec<Rat>> = Vec::new();
        let mut r0: Vec<Rat> = Vec::new();
        r0.push(x);
        let mut r1: Vec<Rat> = Vec::new();
        r1.push(y);
        let mut r2: Vec<Rat> = Vec::new();
        r2.push(z);
        data.push(r0);
        data.push(r1);
        data.push(r2);
        let t = Tensor { data };
        proof {
            assert(t@.len() == 3);
            assert(t@[0] =~= seq![x@]);
            assert(t@[1] =~= seq![y@]);
            assert(t@[2] =~= seq![z@]);
        }
        Vector { x, y, z, data: t }
    }

    /// A vector from a list of components: the first three become `x`,
    /// `y`, `z` (absent ones zero), and the whole list becomes an Nx1
    /// column.
    pub fn from(data: Vec<Rat>) -> (r: Vector)
        requires
            forall|i: int| 0 <= i < data@.len() ==> (#[trigger] data@[i]).wf(),
        ensures
            r.wf(),
            r.data@.len() == data@.len(),
            forall|i: int| 0 <= i < data@.len() ==> (#[trigger] r.data@[i]) =~= seq![data@[i]@],
            r.x@ == (if data@.len() >= 1 {
                data@[0]@
            } else {
                (0int, 1int)
            }),
            r.y@ == (if data@.len() >= 2 {
                data@[1]@
            } else {
                (0int, 1int)
            }),
            r.z@ == (if data@.len() >= 3 {
                data@[2]@
            } else {
                (0int, 1int)
            }),
    {
        let n = data.len();
        let x = if n >= 1 {
            data[0]
        } else {
            Rat::zero()
        };
        let y = if n >= 2 {
            data[1]
        } else {
            Rat::zero()
        };
        let z = if n >= 3 {
            data[2]
        } else {
            Rat::zero()
        };
        let mut col: Vec<Vec<Rat>> = Vec::new();
        let mut i: usize = 0;
        while i < n
            invariant
                i <= n,
                n == data@.len(),
                forall|k: int| 0 <= k < n ==> (#[trigger] data@[k]).wf(),
                col@.len() == i,
                forall|k: int| #![trigger col@[k]]
                    0 <= k < i ==> col@[k]@.len() == 1 && col@[k]@[0] == data@[k],
            decreases n - i,
        {
            let mut row: Vec<Rat> = Vec::new();
            row.push(data[i]);
            col.push(row);
            i += 1;
        }
        let t = Tensor { data: col };
        proof {
            assert forall|k: int| 0 <= k < n implies (#[trigger] t@[k]) =~= seq![data@[k]@] by {
                assert(col@[k]@[0] == data@[k]);
            }
        }
        Vector { x, y, z, data: t }
    }

    /// The column tensor as a matrix.
    pub fn to_matrix(&self) -> (r: crate::matrix::Matrix)
        requires
            self.wf(),
        ensures
            r.wf(),
            r.data@ == self.data@,
    {
        let t = Tensor { data: crate::linalg::clone_rows(&self.data.data) };
        proof {
            assert(t@ =~~= self.data@);
        }
        crate::matrix::Matrix::from(t)
    }

    /// The scalar product of the two column tensors.
    pub fn dot(&self, other: &Vector) -> (r: Option<Rat>)
        requires
            self.wf(),
            other.wf(),
            self.data@.len() >= 1,
            g_cols(self.data@) == 1,
            other.data@.len() == self.data@.len(),
            g_cols(other.data@) == 1,
        ensures
            r is Some <==> dot_n(tr_x(self.data@), other.data@) is Some,
            r matches Some(v) ==> v.wf() && v@ == dot_n(tr_x(self.data@), other.data@).unwrap()[0][0],
    {
        let t = linalg::transpose(&self.data);
        proof {
            assert(t@ == tr_x(self.data@));
            assert(t@.len() == 1 && g_cols(t@) == self.data@.len());
        }
        match linalg::dot(&t, &other.data) {
            Some(p) => {
                proof {
                    assert(p@.len() == 1 && g_cols(p@) == 1);
                }
                Some(linalg::get(&p, 0, 0))
            },
            None => None,
        }
    }

    /// The cross product.
    pub fn cross(&self, other: &Vector) -> (r: Option<Vector>)
        requires
            self.wf(),
            other.wf(),
        ensures
            r is Some <==> (cross_comp_n(self.y@, other.z@, self.z@, other.y@) is Some
                && cross_comp_n(self.z@, other.x@, self.x@, other.z@) is Some && cross_comp_n(
                self.x@,
                other.y@,
                self.y@,
                other.x@,
            ) is Some),
            r matches Some(v) ==> v.wf() && v.x@ == cross_comp_n(
                self.y@,
                other.z@,
                self.z@,
                other.y@,
            ).unwrap() && v.y@ == cross_comp_n(self.z@, other.x@, self.x@, other.z@).unwrap()
                && v.z@ == cross_comp_n(self.x@, other.y@, self.y@, other.x@).unwrap(),
    {
        let cx = match self.cross_part(&self.y, &other.z, &self.z, &other.y) {
            Some(v) => v,
            None => {
                return None;
            },
        };
        let cy = match self.cross_part(&self.z, &other.x, &self.x, &other.z) {
            Some(v) => v,
            None => {
                return None;
            },
        };
        let cz = match self.cross_part(&self.x, &other.y, &self.y, &other.x) {
            Some(v) => v,
            None => {
                return None;
            },
        };
        Some(Vector::new_3d(cx, cy, cz))
    }

    fn cross_part(&self, a1: &Rat, a2: &Rat, b1: &Rat, b2: &Rat) -> (r: Option<Rat>)
        requires
            a1.wf(),
            a2.wf(),
            b1.wf(),
            b2.wf(),
        ensures
            crate::rat::opt_v(r) == cross_comp_n(a1@, a2@, b1@, b2@),
            r matches Some(v) ==> v.wf(),
    {
        let p = match a1.mul(a2) {
            Some(p) => p,
            None => {
                return None;
            },
        };
        let q = match b1.mul(b2) {
            Some(q) => q,
            None => {
                return None;
            },
        };
        p.sub(&q)
    }

    /// The Euclidean norm of the column tensor.
    pub fn magnitude(&self) -> (r: Option<Rat>)
        requires
            self.wf(),
        ensures
            crate::rat::opt_v(r) == crate::linalg::magnitude_n(self.data@),
    {
        linalg::magnitude(&self.data)
    }

    /// Apply a unary operator to each component.
    pub fn map(&self, op: UnOp) -> (r: Vector)
        requires
            self.wf(),
        ensures
            r.wf(),
            r.x@ == uop_n(op, self.x@),
            r.y@ == uop_n(op, self.y@),
            r.z@ == uop_n(op, self.z@),
    {
        let x = match op {
            UnOp::Neg => self.x.neg(),
            UnOp::Abs => self.x.abs_val(),
        };
        let y = match op {
            UnOp::Neg => self.y.neg(),
            UnOp::Abs => self.y.abs_val(),
        };
        let z = match op {
            UnOp::Neg => self.z.neg(),
            UnOp::Abs => self.z.abs_val(),
        };
        Vector::new_3d(x, y, z)
    }

    /// Componentwise sum.
    pub fn add(&self, other: &Vector) -> (r: Option<Vector>)
        requires
            self.wf(),
            other.wf(),
        ensures
            r is Some <==> (crate::rat::add_n(self.x@, other.x@) is Some && crate::rat::add_n(
                self.y@,
                other.y@,
            ) is Some && crate::rat::add_n(self.z@, other.z@) is Some),
            r matches Some(v) ==> v.wf() && Some(v.x@) == crate::rat::add_n(self.x@, other.x@)
                && Some(v.y@) == crate::rat::add_n(self.y@, other.y@) && Some(v.z@)
                == crate::rat::add_n(self.z@, other.z@),
    {
        let x = match self.x.add(&other.x) {
            Some(v) => v,
            None => {
                return None;
            },
        };
        let y = match self.y.add(&other.y) {
            Some(v) => v,
            None => {
                return None;
            },
        };
        let z = match self.z.add(&other.z) {
            Some(v) => v,
            None => {
                return None;
            },
        };
        Some(Vector::new_3d(x, y, z))
    }

    /// Componentwise difference.
    pub fn sub(&self, other: &Vector) -> (r: Option<Vector>)
        requires
            self.wf(),
            other.wf(),
        ensures
            r is Some <==> (sub_n(self.x@, other.x@) is Some && sub_n(self.y@, other.y@) is Some
                && sub_n(self.z@, other.z@) is Some),
            r matches Some(v) ==> v.wf() && Some(v.x@) == sub_n(self.x@, other.x@) && Some(v.y@)
                == sub_n(self.y@, other.y@) && Some(v.z@) == sub_n(self.z@, other.z@),
    {
        let x = match self.x.sub(&other.x) {
            Some(v) => v,
            None => {
                return None;
            },
        };
        let y = match self.y.sub(&other.y) {
            Some(v) => v,
            None => {
                return None;
            },
        };
        let z = match self.z.sub(&other.z) {
            Some(v) => v,
            None => {
                return None;
            },
        };
        Some(Vector::new_3d(x, y, z))
    }

    /// Componentwise product.
    pub fn mul(&self, other: &Vector) -> (r: Option<Vector>)
        requires
            self.wf(),
            other.wf(),
        ensures
            r is Some <==> (mul_n(self.x@, other.x@) is Some && mul_n(self.y@, other.y@) is Some
                && mul_n(self.z@, other.z@) is Some),
            r matches Some(v) ==> v.wf() && Some(v.x@) == mul_n(self.x@, other.x@) && Some(v.y@)
                == mul_n(self.y@, other.y@) && Some(v.z@) == mul_n(self.z@, other.z@),
    {
        let x = match self.x.mul(&other.x) {
            Some(v) => v,
            None => {
                return None;
            },
        };
        let y = match self.y.mul(&other.y) {
            Some(v) => v,
            None => {
                return None;
            },
        };
        let z = match self.z.mul(&other.z) {
            Some(v) => v,
            None => {
                return None;
            },
        };
        Some(Vector::new_3d(x, y, z))
    }

    /// What componentwise division yields: when both operands lie within
    /// the approximate-zero threshold of one hundred-thousandth, the
    /// component is read as zero; otherwise it is the exact quotient.
    pub open spec fn div_comp_n(a: (int, int), b: (int, int)) -> Option<(int, int)> {
        if q_near_zero(a) && q_near_zero(b) {
            Some((0int, 1int))
        } else {
            div_n(a, b)
        }
    }

    /// Componentwise quotient, with approximately-zero-over-
    /// approximately-zero components yielding zero.
    pub fn div(&self, other: &Vector) -> (r: Option<Vector>)
        requires
            self.wf(),
            other.wf(),
        ensures
            r is Some <==> (Vector::div_comp_n(self.x@, other.x@) is Some && Vector::div_comp_n(
                self.y@,
                other.y@,
            ) is Some && Vector::div_comp_n(self.z@, other.z@) is Some),
            r matches Some(v) ==> v.wf() && Some(v.x@) == Vector::div_comp_n(self.x@, other.x@)
                && Some(v.y@) == Vector::div_comp_n(self.y@, other.y@) && Some(v.z@)
                == Vector::div_comp_n(self.z@, other.z@),
    {
        let x = match self.div_part(&self.x, &other.x) {
            Some(v) => v,
            None => {
                return None;
            },
        };
        let y = match self.div_part(&self.y, &other.y) {
            Some(v) => v,
            None => {
                return None;
            },
        };
        let z = match self.div_part(&self.z, &other.z) {
            Some(v) => v,
            None => {
                return None;
            },
        };
        Some(Vector::new_3d(x, y, z))
    }

    fn div_part(&self, a: &Rat, b: &Rat) -> (r: Option<Rat>)
        requires
            a.wf(),
            b.wf(),
        ensures
            crate::rat::opt_v(r) == Vector::div_comp_n(a@, b@),
            r matches Some(v) ==> v.wf(),
    {
        if a.is_approximately_zero() && b.is_approximately_zero() {
            Some(Rat::zero())
        } else {
            a.div(b)
        }
    }
}

} // verus!
