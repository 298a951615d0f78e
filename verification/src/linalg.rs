//! Dense rectangular tensors over exact rational scalars, and the
//! linear-algebra operations on them.
//!
//! The mathematical model of a tensor is a `Grid`: a sequence of rows of
//! fractions.  Each operation's contract is stated against a spec-level
//! mirror of the computation over that model; operations whose exact result
//! would leave the representable scalar range report `None`, and the
//! contracts say precisely when that happens.

use vstd::prelude::*;

verus! {

use crate::rat::Rat;
use crate::rat::add_n;
use crate::rat::div_n;
use crate::rat::lemma_norm_nonneg;
use crate::rat::mul_n;
use crate::rat::opt_v;
use crate::rat::q_abs;
use crate::rat::q_add;
use crate::rat::q_in_i64;
use crate::rat::q_le;
use crate::rat::q_lt;
use crate::rat::q_mul;
use crate::rat::q_neg;
use crate::rat::q_sub;
use crate::rat::q_valid;
use crate::rat::sqrt_n;
use crate::rat::sqrt_tol;
use crate::rat::sub_n;

// ---------------------------------------------------------------------------
// The model.
// ---------------------------------------------------------------------------

/// The mathematical content of a tensor: rows of fractions.
pub type Grid = Seq<Seq<(int, int)>>;

pub open spec fn g_rows(g: Grid) -> nat {
    g.len()
}

pub open spec fn g_cols(g: Grid) -> nat {
    if g.len() == 0 {
        0
    } else {
        g[0].len()
    }
}

/// Rectangular, with every entry in the representable scalar range.
pub open spec fn g_wf(g: Grid) -> bool {
    &&& forall|i: int| 0 <= i < g.len() ==> (#[trigger] g[i]).len() == g_cols(g)
    &&& forall|i: int, j: int|
        0 <= i < g.len() && 0 <= j < g[i].len() ==> q_in_i64(#[trigger] g[i][j])
}

/// The canonical empty tensor: one row of no columns.
pub open spec fn empty_grid() -> Grid {
    seq![Seq::<(int, int)>::empty()]
}

/// A tensor with no elements.
pub open spec fn g_empty(g: Grid) -> bool {
    g.len() == 0 || g[0].len() == 0
}

pub open spec fn zero_grid(rows: nat, cols: nat) -> Grid {
    Seq::new(rows, |i: int| Seq::new(cols, |j: int| (0int, 1int)))
}

pub open spec fn g_transpose(g: Grid) -> Grid {
    Seq::new(g_cols(g), |j: int| Seq::new(g.len(), |i: int| g[i][j]))
}

// ---------------------------------------------------------------------------
// The tensor itself.
// ---------------------------------------------------------------------------

/// A dense rectangular grid of exact rational scalars.
pub struct Tensor {
    pub data: Vec<Vec<Rat>>,
}

impl View for Tensor {
    type V = Grid;

    open spec fn view(&self) -> Grid {
        Seq::new(
            self.data@.len(),
            |i: int| Seq::new(self.data@[i]@.len(), |j: int| self.data@[i]@[j]@),
        )
    }
}

impl Tensor {
    pub open spec fn wf(self) -> bool {
        g_wf(self@)
    }
}

/// The value of a fallible tensor result.
pub open spec fn opt_gv(r: Option<Tensor>) -> Option<Grid> {
    match r {
        Some(t) => Some(t@),
        None => None,
    }
}

pub fn rows(tensor: &Tensor) -> (r: usize)
    ensures
        r == g_rows(tensor@),
{
    tensor.data.len()
}

pub fn columns(tensor: &Tensor) -> (r: usize)
    requires
        tensor@.len() > 0,
    ensures
        r == g_cols(tensor@),
{
    tensor.data[0].len()
}

pub fn is_empty(tensor: &Tensor) -> (r: bool)
    ensures
        r == g_empty(tensor@),
{
    tensor.data.len() == 0 || tensor.data[0].len() == 0
}

/// The canonical empty tensor.
pub fn empty() -> (r: Tensor)
    ensures
        r.wf(),
        r@ == empty_grid(),
{
    let mut data: Vec<Vec<Rat>> = Vec::new();
    data.push(Vec::new());
    let t = Tensor { data };
    proof {
        assert(t@ =~~= empty_grid());
    }
    t
}

/// A zero-filled tensor of the given shape.
pub fn create_tensor(rows: usize, columns: usize) -> (r: Tensor)
    ensures
        r.wf(),
        r@ == zero_grid(rows as nat, columns as nat),
{
    let mut data: Vec<Vec<Rat>> = Vec::new();
    let mut i: usize = 0;
    while i < rows
        invariant
            i <= rows,
            data@.len() == i,
            forall|r: int| #![trigger data@[r]]
                0 <= r < i ==> data@[r]@.len() == columns && forall|c: int|
                    0 <= c < columns ==> data@[r]@[c]@ == (0int, 1int),
        decreases rows - i,
    {
        let mut row: Vec<Rat> = Vec::new();
        let mut j: usize = 0;
        while j < columns
            invariant
                j <= columns,
                row@.len() == j,
                forall|c: int| 0 <= c < j ==> (#[trigger] row@[c])@ == (0int, 1int),
            decreases columns - j,
        {
            row.push(Rat::zero());
            j += 1;
        }
        data.push(row);
        i += 1;
    }
    let t = Tensor { data };
    proof {
        assert(t@ =~~= zero_grid(rows as nat, columns as nat));
    }
    t
}

/// The entry at the given position.
pub fn get(tensor: &Tensor, r: usize, c: usize) -> (v: Rat)
    requires
        tensor.wf(),
        r < g_rows(tensor@),
        c < g_cols(tensor@),
    ensures
        v.wf(),
        v@ == tensor@[r as int][c as int],
{
    proof {
        assert(tensor@[r as int].len() == g_cols(tensor@));
        assert(tensor@[r as int].len() == tensor.data@[r as int]@.len());
        assert(q_in_i64(tensor@[r as int][c as int]));
    }
    tensor.data[r][c]
}

/// A tensor from explicit rows; reports `None` when the rows do not all
/// have the same length.
pub fn from_rows(data: Vec<Vec<Rat>>) -> (r: Option<Tensor>)
    requires
        forall|i: int, j: int|
            0 <= i < data@.len() && 0 <= j < data@[i]@.len() ==> (#[trigger] data@[i]@[j]).wf(),
    ensures
        r is Some <==> (forall|i: int| #![trigger data@[i]]
            0 <= i < data@.len() ==> data@[i]@.len() == data@[0]@.len()),
        r matches Some(t) ==> t.data == data && t.wf(),
{
    let mut ok = true;
    let n = data.len();
    if n > 0 {
        let w = data[0].len();
        let mut i: usize = 1;
        while i < n
            invariant
                1 <= i <= n,
                n == data@.len(),
                w == data@[0]@.len(),
                forall|r: int| #![trigger data@[r]] 0 <= r < i ==> data@[r]@.len() == w,
            decreases n - i,
        {
            if data[i].len() != w {
                proof {
                    assert(data@[i as int]@.len() != data@[0]@.len());
                }
                return None;
            }
            i += 1;
        }
    }
    let t = Tensor { data };
    Some(t)
}

// ---------------------------------------------------------------------------
// Elementwise operations.
// ---------------------------------------------------------------------------

/// The elementwise binary operators of the engine.
#[derive(Clone, Copy, Debug, PartialEq, Eq, Structural)]
pub enum BinOp {
    Add,
    Sub,
    Mul,
    Div,
}

/// The elementwise unary operators of the engine.
#[derive(Clone, Copy, Debug, PartialEq, Eq, Structural)]
pub enum UnOp {
    Neg,
    Abs,
}

/// What a binary operator yields on a pair of scalars.
pub open spec fn bop_n(op: BinOp, x: (int, int), y: (int, int)) -> Option<(int, int)> {
    match op {
        BinOp::Add => add_n(x, y),
        BinOp::Sub => sub_n(x, y),
        BinOp::Mul => mul_n(x, y),
        BinOp::Div => div_n(x, y),
    }
}

/// What a unary operator yields on a scalar.
pub open spec fn uop_n(op: UnOp, x: (int, int)) -> (int, int) {
    match op {
        UnOp::Neg => q_neg(x),
        UnOp::Abs => q_abs(x),
    }
}

fn apply_bop(op: BinOp, x: &Rat, y: &Rat) -> (r: Option<Rat>)
    requires
        x.wf(),
        y.wf(),
    ensures
        opt_v(r) == bop_n(op, x@, y@),
        r matches Some(c) ==> c.wf(),
{
    match op {
        BinOp::Add => x.add(y),
        BinOp::Sub => x.sub(y),
        BinOp::Mul => x.mul(y),
        BinOp::Div => x.div(y),
    }
}

/// Every cell of the elementwise combination is representable.
pub open spec fn combine_ok(op: BinOp, a: Grid, b: Grid) -> bool {
    forall|i: int, j: int|
        0 <= i < a.len() && 0 <= j < a[i].len() ==> (#[trigger] bop_n(op, a[i][j], b[i][j]))
            is Some
}

pub open spec fn combine_val(op: BinOp, a: Grid, b: Grid) -> Grid {
    Seq::new(
        a.len(),
        |i: int| Seq::new(a[i].len(), |j: int| bop_n(op, a[i][j], b[i][j]).unwrap()),
    )
}

/// Mirror of `combine`.
pub open spec fn combine_n(op: BinOp, a: Grid, b: Grid) -> Option<Grid> {
    if combine_ok(op, a, b) {
        Some(combine_val(op, a, b))
    } else {
        None
    }
}

/// Apply a binary operator elementwise to two tensors of identical shape.
/// The engine's elementwise operators are the four arithmetic ones of
/// `BinOp`; scaling by a scalar is `scale` and `scale_div`.  `None`
/// exactly when some cell's exact result is unrepresentable (for
/// division, also a zero divisor cell).
pub fn combine(tensor1: &Tensor, tensor2: &Tensor, op: BinOp) -> (r: Option<Tensor>)
    requires
        tensor1.wf(),
        tensor2.wf(),
        tensor1@.len() >= 1,
        tensor1@.len() == tensor2@.len(),
        g_cols(tensor1@) == g_cols(tensor2@),
    ensures
        opt_gv(r) == combine_n(op, tensor1@, tensor2@),
        r matches Some(t) ==> t.wf() && t@.len() == tensor1@.len() && g_cols(t@) == g_cols(
            tensor1@,
        ),
{
    let n = tensor1.data.len();
    let mut data: Vec<Vec<Rat>> = Vec::new();
    let mut i: usize = 0;
    while i < n
        invariant
            i <= n,
            n == tensor1@.len(),
            tensor1.wf(),
            tensor2.wf(),
            tensor1@.len() == tensor2@.len(),
            g_cols(tensor1@) == g_cols(tensor2@),
            data@.len() == i,
            forall|r: int| #![trigger data@[r]]
                0 <= r < i ==> data@[r]@.len() == g_cols(tensor1@) && forall|c: int|
                    0 <= c < data@[r]@.len() ==> bop_n(op, tensor1@[r][c], tensor2@[r][c])
                        == Some((#[trigger] data@[r]@[c])@) && data@[r]@[c].wf(),
        decreases n - i,
    {
        let w = tensor1.data[i].len();
        proof {
            assert(tensor1@[i as int].len() == g_cols(tensor1@));
        }
        let mut row: Vec<Rat> = Vec::new();
        let mut j: usize = 0;
        while j < w
            invariant
                j <= w,
                i < n,
                n == tensor1@.len(),
                tensor1.wf(),
                tensor2.wf(),
                tensor1@.len() == tensor2@.len(),
                g_cols(tensor1@) == g_cols(tensor2@),
                w == g_cols(tensor1@),
                row@.len() == j,
                forall|c: int|
                    0 <= c < j ==> bop_n(op, tensor1@[i as int][c], tensor2@[i as int][c]) == Some(
                        (#[trigger] row@[c])@,
                    ) && row@[c].wf(),
            decreases w - j,
        {
            let x = tensor1.data[i][j];
            let y = tensor2.data[i][j];
            proof {
                assert(x@ == tensor1@[i as int][j as int]);
                assert(y@ == tensor2@[i as int][j as int]);
            }
            match apply_bop(op, &x, &y) {
                Some(v) => {
                    row.push(v);
                },
                None => {
                    proof {
                        assert(bop_n(op, tensor1@[i as int][j as int], tensor2@[i as int][j as int])
                            is None);
                        assert(!combine_ok(op, tensor1@, tensor2@));
                    }
                    return None;
                },
            }
            j += 1;
        }
        data.push(row);
        i += 1;
    }
    let t = Tensor { data };
    proof {
        assert forall|i2: int, j2: int|
            0 <= i2 < tensor1@.len() && 0 <= j2 < tensor1@[i2].len() implies (#[trigger] bop_n(
            op,
            tensor1@[i2][j2],
            tensor2@[i2][j2],
        )) is Some by {
            assert(tensor1@[i2].len() == g_cols(tensor1@));
            assert(bop_n(op, tensor1@[i2][j2], tensor2@[i2][j2]) == Some(data@[i2]@[j2]@));
        }
        assert(combine_ok(op, tensor1@, tensor2@));
        assert(t@ =~~= combine_val(op, tensor1@, tensor2@));
        assert(g_cols(t@) == g_cols(tensor1@));
    }
    Some(t)
}

/// Elementwise sum.
pub fn add(tensor1: &Tensor, tensor2: &Tensor) -> (r: Option<Tensor>)
    requires
        tensor1.wf(),
        tensor2.wf(),
        tensor1@.len() >= 1,
        tensor1@.len() == tensor2@.len(),
        g_cols(tensor1@) == g_cols(tensor2@),
    ensures
        opt_gv(r) == combine_n(BinOp::Add, tensor1@, tensor2@),
        r matches Some(t) ==> t.wf(),
{
    combine(tensor1, tensor2, BinOp::Add)
}

/// Elementwise difference.
pub fn subtract(tensor1: &Tensor, tensor2: &Tensor) -> (r: Option<Tensor>)
    requires
        tensor1.wf(),
        tensor2.wf(),
        tensor1@.len() >= 1,
        tensor1@.len() == tensor2@.len(),
        g_cols(tensor1@) == g_cols(tensor2@),
    ensures
        opt_gv(r) == combine_n(BinOp::Sub, tensor1@, tensor2@),
        r matches Some(t) ==> t.wf(),
{
    combine(tensor1, tensor2, BinOp::Sub)
}

/// Elementwise product.
pub fn multiply(tensor1: &Tensor, tensor2: &Tensor) -> (r: Option<Tensor>)
    requires
        tensor1.wf(),
        tensor2.wf(),
        tensor1@.len() >= 1,
        tensor1@.len() == tensor2@.len(),
        g_cols(tensor1@) == g_cols(tensor2@),
    ensures
        opt_gv(r) == combine_n(BinOp::Mul, tensor1@, tensor2@),
        r matches Some(t) ==> t.wf(),
{
    combine(tensor1, tensor2, BinOp::Mul)
}

/// Elementwise quotient.
pub fn divide(tensor1: &Tensor, tensor2: &Tensor) -> (r: Option<Tensor>)
    requires
        tensor1.wf(),
        tensor2.wf(),
        tensor1@.len() >= 1,
        tensor1@.len() == tensor2@.len(),
        g_cols(tensor1@) == g_cols(tensor2@),
    ensures
        opt_gv(r) == combine_n(BinOp::Div, tensor1@, tensor2@),
        r matches Some(t) ==> t.wf(),
{
    combine(tensor1, tensor2, BinOp::Div)
}

/// Mirror of `map`: unary operators are total.
pub open spec fn map_val(op: UnOp, a: Grid) -> Grid {
    Seq::new(a.len(), |i: int| Seq::new(a[i].len(), |j: int| uop_n(op, a[i][j])))
}

/// Apply a unary operator elementwise.
pub fn map(tensor: &Tensor, op: UnOp) -> (r: Tensor)
    requires
        tensor.wf(),
    ensures
        r.wf(),
        r@ == map_val(op, tensor@),
{
    let n = tensor.data.len();
    let mut data: Vec<Vec<Rat>> = Vec::new();
    let mut i: usize = 0;
    while i < n
        invariant
            i <= n,
            n == tensor@.len(),
            tensor.wf(),
            data@.len() == i,
            forall|r: int| #![trigger data@[r]]
                0 <= r < i ==> data@[r]@.len() == tensor@[r].len() && forall|c: int|
                    0 <= c < data@[r]@.len() ==> (#[trigger] data@[r]@[c])@ == uop_n(
                        op,
                        tensor@[r][c],
                    ) && data@[r]@[c].wf(),
        decreases n - i,
    {
        let w = tensor.data[i].len();
        let mut row: Vec<Rat> = Vec::new();
        let mut j: usize = 0;
        while j < w
            invariant
                j <= w,
                i < n,
                n == tensor@.len(),
                tensor.wf(),
                w == tensor@[i as int].len(),
                row@.len() == j,
                forall|c: int|
                    0 <= c < j ==> (#[trigger] row@[c])@ == uop_n(op, tensor@[i as int][c])
                        && row@[c].wf(),
            decreases w - j,
        {
            let x = tensor.data[i][j];
            proof {
                assert(x@ == tensor@[i as int][j as int]);
            }
            let v = match op {
                UnOp::Neg => x.neg(),
                UnOp::Abs => x.abs_val(),
            };
            row.push(v);
            j += 1;
        }
        data.push(row);
        i += 1;
    }
    let t = Tensor { data };
    proof {
        assert(t@ =~~= map_val(op, tensor@));
        assert(forall|i: int|
            0 <= i < t@.len() ==> (#[trigger] t@[i]).len() == tensor@[i].len());
        assert(g_cols(t@) == g_cols(tensor@));
    }
    t
}

/// Every cell scaled by `s` is representable.
pub open spec fn scale_ok(s: (int, int), a: Grid) -> bool {
    forall|i: int, j: int|
        0 <= i < a.len() && 0 <= j < a[i].len() ==> (#[trigger] mul_n(a[i][j], s)) is Some
}

pub open spec fn scale_val(s: (int, int), a: Grid) -> Grid {
    Seq::new(a.len(), |i: int| Seq::new(a[i].len(), |j: int| mul_n(a[i][j], s).unwrap()))
}

/// Mirror of `scale`.
pub open spec fn scale_n(s: (int, int), a: Grid) -> Option<Grid> {
    if scale_ok(s, a) {
        Some(scale_val(s, a))
    } else {
        None
    }
}

/// Multiply every entry by the scalar `s`.
pub fn scale(tensor: &Tensor, s: &Rat) -> (r: Option<Tensor>)
    requires
        tensor.wf(),
        s.wf(),
    ensures
        opt_gv(r) == scale_n(s@, tensor@),
        r matches Some(t) ==> t.wf() && t@.len() == tensor@.len() && g_cols(t@) == g_cols(tensor@),
{
    let n = tensor.data.len();
    let mut data: Vec<Vec<Rat>> = Vec::new();
    let mut i: usize = 0;
    while i < n
        invariant
            i <= n,
            n == tensor@.len(),
            tensor.wf(),
            s.wf(),
            data@.len() == i,
            forall|r: int| #![trigger data@[r]]
                0 <= r < i ==> data@[r]@.len() == tensor@[r].len() && forall|c: int|
                    0 <= c < data@[r]@.len() ==> mul_n(tensor@[r][c], s@) == Some(
                        (#[trigger] data@[r]@[c])@,
                    ) && data@[r]@[c].wf(),
        decreases n - i,
    {
        let w = tensor.data[i].len();
        let mut row: Vec<Rat> = Vec::new();
        let mut j: usize = 0;
        while j < w
            invariant
                j <= w,
                i < n,
                n == tensor@.len(),
                tensor.wf(),
                s.wf(),
                w == tensor@[i as int].len(),
                row@.len() == j,
                forall|c: int|
                    0 <= c < j ==> mul_n(tensor@[i as int][c], s@) == Some(
                        (#[trigger] row@[c])@,
                    ) && row@[c].wf(),
            decreases w - j,
        {
            let x = tensor.data[i][j];
            proof {
                assert(x@ == tensor@[i as int][j as int]);
            }
            match x.mul(s) {
                Some(v) => {
                    row.push(v);
                },
                None => {
                    proof {
                        assert(mul_n(tensor@[i as int][j as int], s@) is None);
                        assert(!scale_ok(s@, tensor@));
                    }
                    return None;
                },
            }
            j += 1;
        }
        data.push(row);
        i += 1;
    }
    let t = Tensor { data };
    proof {
        assert forall|i2: int, j2: int|
            0 <= i2 < tensor@.len() && 0 <= j2 < tensor@[i2].len() implies (#[trigger] mul_n(
            tensor@[i2][j2],
            s@,
        )) is Some by {
            assert(tensor@[i2].len() == g_cols(tensor@));
            assert(mul_n(tensor@[i2][j2], s@) == Some(data@[i2]@[j2]@));
        }
        assert(scale_ok(s@, tensor@));
        assert(t@ =~~= scale_val(s@, tensor@));
        assert(forall|i: int|
            0 <= i < t@.len() ==> (#[trigger] t@[i]).len() == tensor@[i].len());
        assert(g_cols(t@) == g_cols(tensor@));
    }
    Some(t)
}

/// Every cell divided by `s` is representable (and `s` is nonzero).
pub open spec fn scale_div_ok(s: (int, int), a: Grid) -> bool {
    forall|i: int, j: int|
        0 <= i < a.len() && 0 <= j < a[i].len() ==> (#[trigger] div_n(a[i][j], s)) is Some
}

pub open spec fn scale_div_val(s: (int, int), a: Grid) -> Grid {
    Seq::new(a.len(), |i: int| Seq::new(a[i].len(), |j: int| div_n(a[i][j], s).unwrap()))
}

/// Mirror of `scale_div`.
pub open spec fn scale_div_n(s: (int, int), a: Grid) -> Option<Grid> {
    if scale_div_ok(s, a) {
        Some(scale_div_val(s, a))
    } else {
        None
    }
}

/// Divide every entry by the scalar `s`; `None` when `s` denotes zero or a
/// cell's exact quotient is unrepresentable.
pub fn scale_div(tensor: &Tensor, s: &Rat) -> (r: Option<Tensor>)
    requires
        tensor.wf(),
        s.wf(),
    ensures
        opt_gv(r) == scale_div_n(s@, tensor@),
        r matches Some(t) ==> t.wf() && t@.len() == tensor@.len() && g_cols(t@) == g_cols(tensor@),
{
    let n = tensor.data.len();
    let mut data: Vec<Vec<Rat>> = Vec::new();
    let mut i: usize = 0;
    while i < n
        invariant
            i <= n,
            n == tensor@.len(),
            tensor.wf(),
            s.wf(),
            data@.len() == i,
            forall|r: int| #![trigger data@[r]]
                0 <= r < i ==> data@[r]@.len() == tensor@[r].len() && forall|c: int|
                    0 <= c < data@[r]@.len() ==> div_n(tensor@[r][c], s@) == Some(
                        (#[trigger] data@[r]@[c])@,
                    ) && data@[r]@[c].wf(),
        decreases n - i,
    {
        let w = tensor.data[i].len();
        let mut row: Vec<Rat> = Vec::new();
        let mut j: usize = 0;
        while j < w
            invariant
                j <= w,
                i < n,
                n == tensor@.len(),
                tensor.wf(),
                s.wf(),
                w == tensor@[i as int].len(),
                row@.len() == j,
                forall|c: int|
                    0 <= c < j ==> div_n(tensor@[i as int][c], s@) == Some(
                        (#[trigger] row@[c])@,
                    ) && row@[c].wf(),
            decreases w - j,
        {
            let x = tensor.data[i][j];
            proof {
                assert(x@ == tensor@[i as int][j as int]);
            }
            match x.div(s) {
                Some(v) => {
                    row.push(v);
                },
                None => {
                    proof {
                        assert(div_n(tensor@[i as int][j as int], s@) is None);
                        assert(!scale_div_ok(s@, tensor@));
                    }
                    return None;
                },
            }
            j += 1;
        }
        data.push(row);
        i += 1;
    }
    let t = Tensor { data };
    proof {
        assert forall|i2: int, j2: int|
            0 <= i2 < tensor@.len() && 0 <= j2 < tensor@[i2].len() implies (#[trigger] div_n(
            tensor@[i2][j2],
            s@,
        )) is Some by {
            assert(tensor@[i2].len() == g_cols(tensor@));
            assert(div_n(tensor@[i2][j2], s@) == Some(data@[i2]@[j2]@));
        }
        assert(scale_div_ok(s@, tensor@));
        assert(t@ =~~= scale_div_val(s@, tensor@));
        assert(forall|i2: int|
            0 <= i2 < t@.len() ==> (#[trigger] t@[i2]).len() == tensor@[i2].len());
        assert(g_cols(t@) == g_cols(tensor@));
    }
    Some(t)
}

/// Transpose: rows become columns.  Transposing a tensor with no columns
/// yields the canonical empty tensor.
pub fn transpose(tensor: &Tensor) -> (r: Tensor)
    requires
        tensor.wf(),
        tensor@.len() >= 1,
    ensures
        r.wf(),
        r@ == if g_cols(tensor@) == 0 {
            empty_grid()
        } else {
            g_transpose(tensor@)
        },
{
    let n = tensor.data.len();
    let w = tensor.data[0].len();
    let mut data: Vec<Vec<Rat>> = Vec::new();
    let mut j: usize = 0;
    while j < w
        invariant
            j <= w,
            n == tensor@.len(),
            n >= 1,
            tensor.wf(),
            w == g_cols(tensor@),
            data@.len() == j,
            forall|c: int| #![trigger data@[c]]
                0 <= c < j ==> data@[c]@.len() == n && forall|i: int|
                    0 <= i < n ==> (#[trigger] data@[c]@[i])@ == tensor@[i][c],
        decreases w - j,
    {
        let mut row: Vec<Rat> = Vec::new();
        let mut i: usize = 0;
        while i < n
            invariant
                i <= n,
                j < w,
                n == tensor@.len(),
                tensor.wf(),
                w == g_cols(tensor@),
                row@.len() == i,
                forall|k: int|
                    0 <= k < i ==> (#[trigger] row@[k])@ == tensor@[k][j as int],
            decreases n - i,
        {
            proof {
                assert(tensor@[i as int].len() == g_cols(tensor@));
                assert(tensor@[i as int].len() == tensor.data@[i as int]@.len());
            }
            let x = tensor.data[i][j];
            proof {
                assert(x@ == tensor@[i as int][j as int]);
            }
            row.push(x);
            i += 1;
        }
        data.push(row);
        j += 1;
    }
    if data.len() == 0 {
        data.push(Vec::new());
        let t = Tensor { data };
        proof {
            assert(t@ =~~= empty_grid());
        }
        t
    } else {
        let t = Tensor { data };
        proof {
            assert(t@ =~~= g_transpose(tensor@));
            assert(forall|c: int|
                0 <= c < t@.len() ==> (#[trigger] t@[c]).len() == g_rows(tensor@));
        }
        t
    }
}

// ---------------------------------------------------------------------------
// Aggregation.
// ---------------------------------------------------------------------------

/// Fold the first `k` entries of a row onto `acc`, left to right.
pub open spec fn agg_row_n(op: BinOp, row: Seq<(int, int)>, acc: (int, int), k: nat) -> Option<
    (int, int),
>
    decreases k,
{
    if k == 0 {
        Some(acc)
    } else {
        match agg_row_n(op, row, acc, (k - 1) as nat) {
            None => None,
            Some(s) => bop_n(op, s, row[k - 1]),
        }
    }
}

/// Fold the first `i` rows of a grid onto `acc`, row-major.
pub open spec fn agg_n(op: BinOp, g: Grid, acc: (int, int), i: nat) -> Option<(int, int)>
    decreases i,
{
    if i == 0 {
        Some(acc)
    } else {
        match agg_n(op, g, acc, (i - 1) as nat) {
            None => None,
            Some(s) => agg_row_n(op, g[i - 1], s, g[i - 1].len()),
        }
    }
}

proof fn lemma_agg_row_none(op: BinOp, row: Seq<(int, int)>, acc: (int, int), k: nat, kk: nat)
    requires
        k <= kk,
        agg_row_n(op, row, acc, k) is None,
    ensures
        agg_row_n(op, row, acc, kk) is None,
    decreases kk,
{
    if kk > k {
        lemma_agg_row_none(op, row, acc, k, (kk - 1) as nat);
    }
}

proof fn lemma_agg_none(op: BinOp, g: Grid, acc: (int, int), i: nat, ii: nat)
    requires
        i <= ii,
        agg_n(op, g, acc, i) is None,
    ensures
        agg_n(op, g, acc, ii) is None,
    decreases ii,
{
    if ii > i {
        lemma_agg_none(op, g, acc, i, (ii - 1) as nat);
    }
}

/// Fold all elements of the tensor onto `initial_value`, row-major.
/// `None` exactly when some intermediate exact value is unrepresentable.
pub fn aggregate(tensor: &Tensor, initial_value: Rat, op: BinOp) -> (r: Option<Rat>)
    requires
        tensor.wf(),
        initial_value.wf(),
    ensures
        opt_v(r) == agg_n(op, tensor@, initial_value@, tensor@.len()),
        r matches Some(c) ==> c.wf(),
{
    let n = tensor.data.len();
    let mut acc = initial_value;
    let mut i: usize = 0;
    while i < n
        invariant
            i <= n,
            n == tensor@.len(),
            tensor.wf(),
            acc.wf(),
            agg_n(op, tensor@, initial_value@, i as nat) == Some(acc@),
        decreases n - i,
    {
        proof {
            assert(tensor@[i as int].len() == g_cols(tensor@));
            assert(tensor@[i as int].len() == tensor.data@[i as int]@.len());
        }
        let w = tensor.data[i].len();
        let ghost acc0 = acc@;
        let mut j: usize = 0;
        while j < w
            invariant
                j <= w,
                i < n,
                n == tensor@.len(),
                tensor.wf(),
                acc.wf(),
                w == tensor@[i as int].len(),
                w == tensor.data@[i as int]@.len(),
                agg_n(op, tensor@, initial_value@, i as nat) == Some(acc0),
                agg_row_n(op, tensor@[i as int], acc0, j as nat) == Some(acc@),
            decreases w - j,
        {
            let x = tensor.data[i][j];
            proof {
                assert(x@ == tensor@[i as int][j as int]);
            }
            match apply_bop(op, &acc, &x) {
                Some(v) => {
                    acc = v;
                },
                None => {
                    proof {
                        assert(agg_row_n(op, tensor@[i as int], acc0, (j + 1) as nat) is None);
                        lemma_agg_row_none(op, tensor@[i as int], acc0, (j + 1) as nat, w as nat);
                        assert(agg_n(op, tensor@, initial_value@, (i + 1) as nat) is None);
                        lemma_agg_none(op, tensor@, initial_value@, (i + 1) as nat, n as nat);
                    }
                    return None;
                },
            }
            j += 1;
        }
        proof {
            assert(agg_n(op, tensor@, initial_value@, (i + 1) as nat) == Some(acc@));
        }
        i += 1;
    }
    Some(acc)
}

/// Mirror of `aggregate_rows`.
pub open spec fn agg_rows_n(op: BinOp, g: Grid, init: (int, int)) -> Option<Grid> {
    if g_empty(g) {
        Some(empty_grid())
    } else if forall|i: int|
        0 <= i < g.len() ==> (#[trigger] agg_row_n(op, g[i], init, g[i].len())) is Some {
        Some(Seq::new(g.len(), |i: int| seq![agg_row_n(op, g[i], init, g[i].len()).unwrap()]))
    } else {
        None
    }
}

/// Fold each row independently onto `initial_value`, producing an Nx1
/// tensor; the empty tensor folds to the empty tensor.
pub fn aggregate_rows(tensor: &Tensor, initial_value: Rat, op: BinOp) -> (r: Option<Tensor>)
    requires
        tensor.wf(),
        initial_value.wf(),
    ensures
        opt_gv(r) == agg_rows_n(op, tensor@, initial_value@),
        r matches Some(t) ==> t.wf(),
{
    if is_empty(tensor) {
        return Some(empty());
    }
    let n = tensor.data.len();
    let mut data: Vec<Vec<Rat>> = Vec::new();
    let mut i: usize = 0;
    while i < n
        invariant
            i <= n,
            n == tensor@.len(),
            tensor.wf(),
            initial_value.wf(),
            !g_empty(tensor@),
            data@.len() == i,
            forall|r: int| #![trigger data@[r]]
                0 <= r < i ==> data@[r]@.len() == 1 && agg_row_n(
                    op,
                    tensor@[r],
                    initial_value@,
                    tensor@[r].len(),
                ) == Some(data@[r]@[0]@) && data@[r]@[0].wf(),
        decreases n - i,
    {
        proof {
            assert(tensor@[i as int].len() == g_cols(tensor@));
            assert(tensor@[i as int].len() == tensor.data@[i as int]@.len());
        }
        let w = tensor.data[i].len();
        let mut acc = initial_value;
        let mut j: usize = 0;
        while j < w
            invariant
                j <= w,
                i < n,
                n == tensor@.len(),
                tensor.wf(),
                acc.wf(),
                w == tensor@[i as int].len(),
                w == tensor.data@[i as int]@.len(),
                agg_row_n(op, tensor@[i as int], initial_value@, j as nat) == Some(acc@),
            decreases w - j,
        {
            let x = tensor.data[i][j];
            proof {
                assert(x@ == tensor@[i as int][j as int]);
            }
            match apply_bop(op, &acc, &x) {
                Some(v) => {
                    acc = v;
                },
                None => {
                    proof {
                        assert(agg_row_n(
                            op,
                            tensor@[i as int],
                            initial_value@,
                            (j + 1) as nat,
                        ) is None);
                        lemma_agg_row_none(
                            op,
                            tensor@[i as int],
                            initial_value@,
                            (j + 1) as nat,
                            w as nat,
                        );
                    }
                    return None;
                },
            }
            j += 1;
        }
        let mut row: Vec<Rat> = Vec::new();
        row.push(acc);
        data.push(row);
        i += 1;
    }
    let t = Tensor { data };
    proof {
        assert forall|r2: int| 0 <= r2 < tensor@.len() implies (#[trigger] agg_row_n(
            op,
            tensor@[r2],
            initial_value@,
            tensor@[r2].len(),
        )) is Some by {
            assert(agg_row_n(op, tensor@[r2], initial_value@, tensor@[r2].len()) == Some(
                data@[r2]@[0]@,
            ));
        }
        let val = agg_rows_n(op, tensor@, initial_value@).unwrap();
        assert forall|r2: int| 0 <= r2 < t@.len() implies t@[r2] =~~= val[r2] by {
            assert(agg_row_n(op, tensor@[r2], initial_value@, tensor@[r2].len()) == Some(
                data@[r2]@[0]@,
            ));
        }
        assert(t@ =~~= val);
    }
    Some(t)
}

/// Fold the first `i` entries of column `j` onto `acc`, top to bottom.
pub open spec fn agg_col_n(op: BinOp, g: Grid, acc: (int, int), j: int, i: nat) -> Option<
    (int, int),
>
    decreases i,
{
    if i == 0 {
        Some(acc)
    } else {
        match agg_col_n(op, g, acc, j, (i - 1) as nat) {
            None => None,
            Some(s) => bop_n(op, s, g[i - 1][j]),
        }
    }
}

proof fn lemma_agg_col_none(op: BinOp, g: Grid, acc: (int, int), j: int, i: nat, ii: nat)
    requires
        i <= ii,
        agg_col_n(op, g, acc, j, i) is None,
    ensures
        agg_col_n(op, g, acc, j, ii) is None,
    decreases ii,
{
    if ii > i {
        lemma_agg_col_none(op, g, acc, j, i, (ii - 1) as nat);
    }
}

/// Mirror of `aggregate_columns`.
pub open spec fn agg_cols_n(op: BinOp, g: Grid, init: (int, int)) -> Option<Grid> {
    if g_empty(g) {
        Some(empty_grid())
    } else if forall|j: int|
        0 <= j < g_cols(g) ==> (#[trigger] agg_col_n(op, g, init, j, g.len())) is Some {
        Some(
            seq![
                Seq::new(g_cols(g), |j: int| agg_col_n(op, g, init, j, g.len()).unwrap()),
            ],
        )
    } else {
        None
    }
}

/// Fold each column independently onto `initial_value`, producing a 1xN
/// tensor; the empty tensor folds to the empty tensor.
pub fn aggregate_columns(tensor: &Tensor, initial_value: Rat, op: BinOp) -> (r: Option<Tensor>)
    requires
        tensor.wf(),
        initial_value.wf(),
    ensures
        opt_gv(r) == agg_cols_n(op, tensor@, initial_value@),
        r matches Some(t) ==> t.wf(),
{
    if is_empty(tensor) {
        return Some(empty());
    }
    let n = tensor.data.len();
    let w = tensor.data[0].len();
    let mut row: Vec<Rat> = Vec::new();
    let mut j: usize = 0;
    while j < w
        invariant
            j <= w,
            n == tensor@.len(),
            n >= 1,
            tensor.wf(),
            initial_value.wf(),
            !g_empty(tensor@),
            w == g_cols(tensor@),
            row@.len() == j,
            forall|c: int|
                0 <= c < j ==> agg_col_n(op, tensor@, initial_value@, c, n as nat) == Some(
                    (#[trigger] row@[c])@,
                ) && row@[c].wf(),
        decreases w - j,
    {
        let mut acc = initial_value;
        let mut i: usize = 0;
        while i < n
            invariant
                i <= n,
                j < w,
                n == tensor@.len(),
                tensor.wf(),
                acc.wf(),
                w == g_cols(tensor@),
                agg_col_n(op, tensor@, initial_value@, j as int, i as nat) == Some(acc@),
            decreases n - i,
        {
            proof {
                assert(tensor@[i as int].len() == g_cols(tensor@));
                assert(tensor@[i as int].len() == tensor.data@[i as int]@.len());
            }
            let x = tensor.data[i][j];
            proof {
                assert(x@ == tensor@[i as int][j as int]);
            }
            match apply_bop(op, &acc, &x) {
                Some(v) => {
                    acc = v;
                },
                None => {
                    proof {
                        assert(agg_col_n(
                            op,
                            tensor@,
                            initial_value@,
                            j as int,
                            (i + 1) as nat,
                        ) is None);
                        lemma_agg_col_none(
                            op,
                            tensor@,
                            initial_value@,
                            j as int,
                            (i + 1) as nat,
                            n as nat,
                        );
                    }
                    return None;
                },
            }
            i += 1;
        }
        row.push(acc);
        j += 1;
    }
    let mut data: Vec<Vec<Rat>> = Vec::new();
    data.push(row);
    let t = Tensor { data };
    proof {
        assert forall|c2: int| 0 <= c2 < g_cols(tensor@) implies (#[trigger] agg_col_n(
            op,
            tensor@,
            initial_value@,
            c2,
            tensor@.len(),
        )) is Some by {
            assert(agg_col_n(op, tensor@, initial_value@, c2, tensor@.len()) == Some(
                data@[0]@[c2]@,
            ));
        }
        assert(t@ =~~= agg_cols_n(op, tensor@, initial_value@).unwrap());
    }
    Some(t)
}

// ---------------------------------------------------------------------------
// Matrix product.
// ---------------------------------------------------------------------------

/// Partial sum of the first `k` products contributing to cell `(i, j)` of
/// the matrix product.
pub open spec fn dot_cell_n(a: Grid, b: Grid, i: int, j: int, k: nat) -> Option<(int, int)>
    decreases k,
{
    if k == 0 {
        Some((0int, 1int))
    } else {
        match dot_cell_n(a, b, i, j, (k - 1) as nat) {
            None => None,
            Some(s) => match mul_n(a[i][k - 1], b[k - 1][j]) {
                None => None,
                Some(p) => add_n(s, p),
            },
        }
    }
}

proof fn lemma_dot_cell_none(a: Grid, b: Grid, i: int, j: int, k: nat, kk: nat)
    requires
        k <= kk,
        dot_cell_n(a, b, i, j, k) is None,
    ensures
        dot_cell_n(a, b, i, j, kk) is None,
    decreases kk,
{
    if kk > k {
        lemma_dot_cell_none(a, b, i, j, k, (kk - 1) as nat);
    }
}

/// Every cell of the matrix product is representable.
pub open spec fn dot_ok(a: Grid, b: Grid) -> bool {
    forall|i: int, j: int|
        0 <= i < a.len() && 0 <= j < g_cols(b) ==> (#[trigger] dot_cell_n(
            a,
            b,
            i,
            j,
            g_cols(a),
        )) is Some
}

pub open spec fn dot_val(a: Grid, b: Grid) -> Grid {
    Seq::new(a.len(), |i: int| Seq::new(g_cols(b), |j: int| dot_cell_n(a, b, i, j, g_cols(a)).unwrap()))
}

/// Mirror of `dot`: the standard matrix product, the empty tensor on empty
/// operands.
pub open spec fn dot_n(a: Grid, b: Grid) -> Option<Grid> {
    if g_empty(a) || g_empty(b) {
        Some(empty_grid())
    } else if dot_ok(a, b) {
        Some(dot_val(a, b))
    } else {
        None
    }
}

/// The matrix product.  The result has shape `rows(a) x columns(b)`; each
/// cell is the exact sum of products of the paired row and column.
pub fn dot(tensor1: &Tensor, tensor2: &Tensor) -> (r: Option<Tensor>)
    requires
        tensor1.wf(),
        tensor2.wf(),
        !g_empty(tensor1@) && !g_empty(tensor2@) ==> g_cols(tensor1@) == g_rows(tensor2@),
    ensures
        opt_gv(r) == dot_n(tensor1@, tensor2@),
        r matches Some(t) ==> t.wf(),
        !g_empty(tensor1@) && !g_empty(tensor2@) && r is Some ==> r.unwrap()@.len() == g_rows(
            tensor1@,
        ) && g_cols(r.unwrap()@) == g_cols(tensor2@),
{
    if is_empty(tensor1) || is_empty(tensor2) {
        return Some(empty());
    }
    let n = tensor1.data.len();
    let k_len = tensor1.data[0].len();
    proof {
        assert(tensor2@[0].len() == g_cols(tensor2@));
        assert(tensor2@[0].len() == tensor2.data@[0]@.len());
    }
    let w = tensor2.data[0].len();
    let mut data: Vec<Vec<Rat>> = Vec::new();
    let mut i: usize = 0;
    while i < n
        invariant
            i <= n,
            n == tensor1@.len(),
            tensor1.wf(),
            tensor2.wf(),
            !g_empty(tensor1@),
            !g_empty(tensor2@),
            g_cols(tensor1@) == g_rows(tensor2@),
            k_len == g_cols(tensor1@),
            w == g_cols(tensor2@),
            data@.len() == i,
            forall|r: int| #![trigger data@[r]]
                0 <= r < i ==> data@[r]@.len() == w && forall|c: int|
                    0 <= c < data@[r]@.len() ==> dot_cell_n(tensor1@, tensor2@, r, c, k_len as nat)
                        == Some((#[trigger] data@[r]@[c])@) && data@[r]@[c].wf(),
        decreases n - i,
    {
        let mut row: Vec<Rat> = Vec::new();
        let mut j: usize = 0;
        while j < w
            invariant
                j <= w,
                i < n,
                n == tensor1@.len(),
                tensor1.wf(),
                tensor2.wf(),
                !g_empty(tensor1@),
                !g_empty(tensor2@),
                g_cols(tensor1@) == g_rows(tensor2@),
                k_len == g_cols(tensor1@),
                w == g_cols(tensor2@),
                row@.len() == j,
                forall|c: int|
                    0 <= c < j ==> dot_cell_n(tensor1@, tensor2@, i as int, c, k_len as nat)
                        == Some((#[trigger] row@[c])@) && row@[c].wf(),
            decreases w - j,
        {
            let mut sum = Rat::zero();
            let mut c: usize = 0;
            while c < k_len
                invariant
                    c <= k_len,
                    i < n,
                    j < w,
                    n == tensor1@.len(),
                    tensor1.wf(),
                    tensor2.wf(),
                    !g_empty(tensor1@),
                    !g_empty(tensor2@),
                    g_cols(tensor1@) == g_rows(tensor2@),
                    k_len == g_cols(tensor1@),
                    w == g_cols(tensor2@),
                    sum.wf(),
                    dot_cell_n(tensor1@, tensor2@, i as int, j as int, c as nat) == Some(sum@),
                decreases k_len - c,
            {
                proof {
                    assert(tensor1@[i as int].len() == g_cols(tensor1@));
                    assert(tensor1@[i as int].len() == tensor1.data@[i as int]@.len());
                    assert(tensor2@[c as int].len() == g_cols(tensor2@));
                    assert(tensor2@[c as int].len() == tensor2.data@[c as int]@.len());
                }
                let x = tensor1.data[i][c];
                let y = tensor2.data[c][j];
                proof {
                    assert(x@ == tensor1@[i as int][c as int]);
                    assert(y@ == tensor2@[c as int][j as int]);
                }
                let p = match x.mul(&y) {
                    Some(p) => p,
                    None => {
                        proof {
                            assert(dot_cell_n(
                                tensor1@,
                                tensor2@,
                                i as int,
                                j as int,
                                (c + 1) as nat,
                            ) is None);
                            lemma_dot_cell_none(
                                tensor1@,
                                tensor2@,
                                i as int,
                                j as int,
                                (c + 1) as nat,
                                k_len as nat,
                            );
                            assert(!dot_ok(tensor1@, tensor2@));
                        }
                        return None;
                    },
                };
                match sum.add(&p) {
                    Some(v) => {
                        sum = v;
                    },
                    None => {
                        proof {
                            assert(dot_cell_n(
                                tensor1@,
                                tensor2@,
                                i as int,
                                j as int,
                                (c + 1) as nat,
                            ) is None);
                            lemma_dot_cell_none(
                                tensor1@,
                                tensor2@,
                                i as int,
                                j as int,
                                (c + 1) as nat,
                                k_len as nat,
                            );
                            assert(!dot_ok(tensor1@, tensor2@));
                        }
                        return None;
                    },
                }
                c += 1;
            }
            row.push(sum);
            j += 1;
        }
        data.push(row);
        i += 1;
    }
    let t = Tensor { data };
    proof {
        assert forall|i2: int, j2: int|
            0 <= i2 < tensor1@.len() && 0 <= j2 < g_cols(tensor2@) implies (#[trigger] dot_cell_n(
            tensor1@,
            tensor2@,
            i2,
            j2,
            g_cols(tensor1@),
        )) is Some by {
            assert(dot_cell_n(tensor1@, tensor2@, i2, j2, k_len as nat) == Some(data@[i2]@[j2]@));
        }
        assert(dot_ok(tensor1@, tensor2@));
        assert(t@ =~~= dot_val(tensor1@, tensor2@));
        assert(forall|r: int|
            0 <= r < t@.len() ==> (#[trigger] t@[r]).len() == g_cols(tensor2@));
    }
    Some(t)
}

// ---------------------------------------------------------------------------
// Magnitude.
// ---------------------------------------------------------------------------

/// Partial sum of squares of the first `k` entries of a row.
pub open spec fn sumsq_row_n(row: Seq<(int, int)>, acc: (int, int), k: nat) -> Option<(int, int)>
    decreases k,
{
    if k == 0 {
        Some(acc)
    } else {
        match sumsq_row_n(row, acc, (k - 1) as nat) {
            None => None,
            Some(s) => match mul_n(row[k - 1], row[k - 1]) {
                None => None,
                Some(p) => add_n(s, p),
            },
        }
    }
}

/// Sum of squares of all entries of the first `i` rows, row-major.
pub open spec fn sumsq_n(g: Grid, acc: (int, int), i: nat) -> Option<(int, int)>
    decreases i,
{
    if i == 0 {
        Some(acc)
    } else {
        match sumsq_n(g, acc, (i - 1) as nat) {
            None => None,
            Some(s) => sumsq_row_n(g[i - 1], s, g[i - 1].len()),
        }
    }
}

proof fn lemma_sumsq_row_none(row: Seq<(int, int)>, acc: (int, int), k: nat, kk: nat)
    requires
        k <= kk,
        sumsq_row_n(row, acc, k) is None,
    ensures
        sumsq_row_n(row, acc, kk) is None,
    decreases kk,
{
    if kk > k {
        lemma_sumsq_row_none(row, acc, k, (kk - 1) as nat);
    }
}

proof fn lemma_sumsq_none(g: Grid, acc: (int, int), i: nat, ii: nat)
    requires
        i <= ii,
        sumsq_n(g, acc, i) is None,
    ensures
        sumsq_n(g, acc, ii) is None,
    decreases ii,
{
    if ii > i {
        lemma_sumsq_none(g, acc, i, (ii - 1) as nat);
    }
}

/// A square is a nonnegative fraction.
proof fn lemma_sq_nonneg(x: (int, int)) by (nonlinear_arith)
    requires
        q_valid(x),
    ensures
        q_mul(x, x).0 >= 0,
        q_mul(x, x).1 >= 1,
{
}

/// Adding nonnegative fractions stays nonnegative.
proof fn lemma_add_nonneg(x: (int, int), y: (int, int)) by (nonlinear_arith)
    requires
        q_valid(x),
        q_valid(y),
        x.0 >= 0,
        y.0 >= 0,
    ensures
        q_add(x, y).0 >= 0,
        q_add(x, y).1 >= 1,
{
}

/// Mirror of `magnitude`: the approximate square root of the exact sum of
/// squares of all entries.
pub open spec fn magnitude_n(g: Grid) -> Option<(int, int)> {
    match sumsq_n(g, (0int, 1int), g.len()) {
        None => None,
        Some(s) => Some(sqrt_n(s)),
    }
}

/// The Euclidean norm of all entries: the exact sum of squares is
/// accumulated, then its square root is taken within the guaranteed
/// tolerance (usually far closer).  The norm of the empty tensor is
/// exactly zero.
pub fn magnitude(tensor: &Tensor) -> (r: Option<Rat>)
    requires
        tensor.wf(),
    ensures
        opt_v(r) == magnitude_n(tensor@),
        r matches Some(m) ==> m.wf() && m@.0 >= 0,
        sumsq_n(tensor@, (0int, 1int), tensor@.len()) matches Some(s) ==> (r matches Some(m)
            && q_lt(s, q_mul(q_add(m@, sqrt_tol()), q_add(m@, sqrt_tol()))) && (q_le(
            sqrt_tol(),
            m@,
        ) ==> q_le(q_mul(q_sub(m@, sqrt_tol()), q_sub(m@, sqrt_tol())), s))),
        g_empty(tensor@) ==> (r matches Some(m) && m@ == (0int, 1int)),
{
    let n = tensor.data.len();
    let mut acc = Rat::zero();
    let mut i: usize = 0;
    while i < n
        invariant
            i <= n,
            n == tensor@.len(),
            tensor.wf(),
            acc.wf(),
            acc@.0 >= 0,
            sumsq_n(tensor@, (0int, 1int), i as nat) == Some(acc@),
            g_empty(tensor@) ==> acc@ == (0int, 1int),
        decreases n - i,
    {
        proof {
            assert(tensor@[i as int].len() == g_cols(tensor@));
            assert(tensor@[i as int].len() == tensor.data@[i as int]@.len());
        }
        let w = tensor.data[i].len();
        let ghost acc0 = acc@;
        let mut j: usize = 0;
        while j < w
            invariant
                j <= w,
                i < n,
                n == tensor@.len(),
                tensor.wf(),
                acc.wf(),
                acc@.0 >= 0,
                w == tensor@[i as int].len(),
                w == tensor.data@[i as int]@.len(),
                sumsq_n(tensor@, (0int, 1int), i as nat) == Some(acc0),
                sumsq_row_n(tensor@[i as int], acc0, j as nat) == Some(acc@),
            decreases w - j,
        {
            let x = tensor.data[i][j];
            proof {
                assert(x@ == tensor@[i as int][j as int]);
            }
            let p = match x.mul(&x) {
                Some(p) => p,
                None => {
                    proof {
                        assert(sumsq_row_n(tensor@[i as int], acc0, (j + 1) as nat) is None);
                        lemma_sumsq_row_none(tensor@[i as int], acc0, (j + 1) as nat, w as nat);
                        assert(sumsq_n(tensor@, (0int, 1int), (i + 1) as nat) is None);
                        lemma_sumsq_none(tensor@, (0int, 1int), (i + 1) as nat, n as nat);
                    }
                    return None;
                },
            };
            proof {
                lemma_sq_nonneg(x@);
                lemma_norm_nonneg(q_mul(x@, x@));
            }
            match acc.add(&p) {
                Some(v) => {
                    proof {
                        lemma_add_nonneg(acc@, p@);
                        lemma_norm_nonneg(q_add(acc@, p@));
                    }
                    acc = v;
                },
                None => {
                    proof {
                        assert(sumsq_row_n(tensor@[i as int], acc0, (j + 1) as nat) is None);
                        lemma_sumsq_row_none(tensor@[i as int], acc0, (j + 1) as nat, w as nat);
                        assert(sumsq_n(tensor@, (0int, 1int), (i + 1) as nat) is None);
                        lemma_sumsq_none(tensor@, (0int, 1int), (i + 1) as nat, n as nat);
                    }
                    return None;
                },
            }
            j += 1;
        }
        proof {
            assert(sumsq_n(tensor@, (0int, 1int), (i + 1) as nat) == Some(acc@));
        }
        i += 1;
    }
    let m = acc.sqrt_approx();
    Some(m)
}

// ---------------------------------------------------------------------------
// Determinant, adjugate, inverse.
// ---------------------------------------------------------------------------

/// The submatrix obtained by deleting row `r` and column `c`.
pub open spec fn g_minor(g: Grid, r: int, c: int) -> Grid {
    Seq::new(
        (g.len() - 1) as nat,
        |i: int| Seq::new(
            (g_cols(g) - 1) as nat,
            |j: int| g[if i < r {
                i
            } else {
                i + 1
            }][if j < c {
                j
            } else {
                j + 1
            }],
        ),
    )
}

/// The determinant as a mathematical value: the sole entry for 1x1, the
/// cross product difference for 2x2, and cofactor expansion along the
/// first row beyond that.
pub open spec fn q_det(g: Grid) -> (int, int)
    recommends
        g.len() >= 1,
        g.len() == g_cols(g),
    decreases g.len(), g_cols(g) + 1,
{
    if g.len() == 1 {
        g[0][0]
    } else if g.len() == 2 {
        q_sub(q_mul(g[0][0], g[1][1]), q_mul(g[0][1], g[1][0]))
    } else {
        q_det_sum(g, g_cols(g))
    }
}

/// Partial cofactor expansion of the determinant over the first `c`
/// columns.
pub open spec fn q_det_sum(g: Grid, c: nat) -> (int, int)
    decreases g.len(), c,
{
    if c == 0 || g.len() == 0 {
        (0int, 1int)
    } else {
        let p = q_mul(g[0][c - 1], q_det(g_minor(g, 0, c - 1)));
        q_add(q_det_sum(g, (c - 1) as nat), if (c - 1) % 2 == 0 {
            p
        } else {
            q_neg(p)
        })
    }
}

/// Mirror of `determinant` over stored scalars.
pub open spec fn det_n(g: Grid) -> Option<(int, int)>
    decreases g.len(), g_cols(g) + 1,
{
    if g.len() == 1 {
        Some(g[0][0])
    } else if g.len() == 2 {
        match mul_n(g[0][0], g[1][1]) {
            None => None,
            Some(p1) => match mul_n(g[0][1], g[1][0]) {
                None => None,
                Some(p2) => sub_n(p1, p2),
            },
        }
    } else {
        det_sum_n(g, g_cols(g))
    }
}

/// Mirror of the partial cofactor expansion.
pub open spec fn det_sum_n(g: Grid, c: nat) -> Option<(int, int)>
    decreases g.len(), c,
{
    if c == 0 || g.len() == 0 {
        Some((0int, 1int))
    } else {
        match det_sum_n(g, (c - 1) as nat) {
            None => None,
            Some(s) => match det_n(g_minor(g, 0, c - 1)) {
                None => None,
                Some(d) => match mul_n(g[0][c - 1], d) {
                    None => None,
                    Some(p) => add_n(s, if (c - 1) % 2 == 0 {
                        p
                    } else {
                        q_neg(p)
                    }),
                },
            },
        }
    }
}

proof fn lemma_det_sum_none(g: Grid, c: nat, cc: nat)
    requires
        c <= cc,
        det_sum_n(g, c) is None,
    ensures
        det_sum_n(g, cc) is None,
    decreases cc,
{
    if cc > c {
        lemma_det_sum_none(g, c, (cc - 1) as nat);
    }
}

/// The submatrix with row `r` and column `c` deleted.
pub fn cofactor(tensor: &Tensor, r: usize, c: usize) -> (res: Tensor)
    requires
        tensor.wf(),
        tensor@.len() >= 1,
        g_cols(tensor@) >= 1,
        (r as int) < tensor@.len(),
        (c as int) < g_cols(tensor@),
    ensures
        res.wf(),
        res@ == g_minor(tensor@, r as int, c as int),
        res@.len() == tensor@.len() - 1,
        tensor@.len() >= 2 ==> g_cols(res@) == g_cols(tensor@) - 1,
{
    let n = tensor.data.len();
    let w = tensor.data[0].len();
    let mut data: Vec<Vec<Rat>> = Vec::new();
    let mut i: usize = 0;
    while i < n - 1
        invariant
            i <= n - 1,
            n == tensor@.len(),
            n >= 1,
            tensor.wf(),
            w == g_cols(tensor@),
            w >= 1,
            (r as int) < n,
            (c as int) < w,
            data@.len() == i,
            forall|r2: int| #![trigger data@[r2]]
                0 <= r2 < i ==> data@[r2]@.len() == w - 1 && forall|c2: int|
                    0 <= c2 < w - 1 ==> (#[trigger] data@[r2]@[c2])@ == g_minor(
                        tensor@,
                        r as int,
                        c as int,
                    )[r2][c2],
        decreases n - 1 - i,
    {
        let sr = if i < r {
            i
        } else {
            i + 1
        };
        proof {
            assert(tensor@[sr as int].len() == g_cols(tensor@));
            assert(tensor@[sr as int].len() == tensor.data@[sr as int]@.len());
        }
        let mut row: Vec<Rat> = Vec::new();
        let mut j: usize = 0;
        while j < w - 1
            invariant
                j <= w - 1,
                i < n - 1,
                n == tensor@.len(),
                tensor.wf(),
                w == g_cols(tensor@),
                w >= 1,
                (r as int) < n,
                (c as int) < w,
                sr == if i < r {
                    i as int
                } else {
                    i + 1
                },
                sr < n,
                row@.len() == j,
                forall|c2: int|
                    0 <= c2 < j ==> (#[trigger] row@[c2])@ == g_minor(
                        tensor@,
                        r as int,
                        c as int,
                    )[i as int][c2],
            decreases w - 1 - j,
        {
            let sc = if j < c {
                j
            } else {
                j + 1
            };
            proof {
                assert(tensor@[sr as int].len() == g_cols(tensor@));
                assert(tensor@[sr as int].len() == tensor.data@[sr as int]@.len());
            }
            let x = tensor.data[sr][sc];
            proof {
                assert(x@ == tensor@[sr as int][sc as int]);
                assert(g_minor(tensor@, r as int, c as int)[i as int][j as int] == tensor@[sr as int][sc as int]);
            }
            row.push(x);
            j += 1;
        }
        data.push(row);
        i += 1;
    }
    let t = Tensor { data };
    proof {
        assert(t@ =~~= g_minor(tensor@, r as int, c as int));
        assert(forall|r2: int|
            0 <= r2 < t@.len() ==> (#[trigger] t@[r2]).len() == (w - 1) as nat);
    }
    t
}

/// The determinant of a square tensor, by recursive cofactor expansion
/// along the first row.  `None` exactly when some exact intermediate is
/// unrepresentable.
pub fn determinant(tensor: &Tensor) -> (r: Option<Rat>)
    requires
        tensor.wf(),
        tensor@.len() >= 1,
        tensor@.len() == g_cols(tensor@),
    ensures
        opt_v(r) == det_n(tensor@),
        r matches Some(c) ==> c.wf(),
    decreases tensor@.len(),
{
    let n = tensor.data.len();
    proof {
        assert(tensor@[0].len() == g_cols(tensor@));
        assert(tensor@[0].len() == tensor.data@[0]@.len());
    }
    if n == 1 {
        let x = tensor.data[0][0];
        proof {
            assert(x@ == tensor@[0][0]);
            assert(q_in_i64(tensor@[0][0]));
        }
        Some(x)
    } else if n == 2 {
        proof {
            assert(tensor@[1].len() == g_cols(tensor@));
            assert(tensor@[1].len() == tensor.data@[1]@.len());
        }
        let a = tensor.data[0][0];
        let b = tensor.data[0][1];
        let c = tensor.data[1][0];
        let d = tensor.data[1][1];
        proof {
            assert(a@ == tensor@[0][0] && b@ == tensor@[0][1] && c@ == tensor@[1][0] && d@
                == tensor@[1][1]);
        }
        let p1 = match a.mul(&d) {
            Some(p) => p,
            None => {
                return None;
            },
        };
        let p2 = match b.mul(&c) {
            Some(p) => p,
            None => {
                return None;
            },
        };
        p1.sub(&p2)
    } else {
        let mut sum = Rat::zero();
        let mut c: usize = 0;
        while c < n
            invariant
                c <= n,
                n == tensor@.len(),
                n >= 3,
                tensor.wf(),
                tensor@.len() == g_cols(tensor@),
                sum.wf(),
                det_sum_n(tensor@, c as nat) == Some(sum@),
            decreases n - c,
        {
            let minor = cofactor(tensor, 0, c);
            proof {
                assert(g_cols(minor@) == g_cols(tensor@) - 1);
            }
            let d = match determinant(&minor) {
                Some(d) => d,
                None => {
                    proof {
                        assert(det_sum_n(tensor@, (c + 1) as nat) is None);
                        lemma_det_sum_none(tensor@, (c + 1) as nat, n as nat);
                    }
                    return None;
                },
            };
            proof {
                assert(tensor@[0].len() == tensor.data@[0]@.len());
            }
            let x = tensor.data[0][c];
            proof {
                assert(x@ == tensor@[0][c as int]);
            }
            let p = match x.mul(&d) {
                Some(p) => p,
                None => {
                    proof {
                        assert(det_sum_n(tensor@, (c + 1) as nat) is None);
                        lemma_det_sum_none(tensor@, (c + 1) as nat, n as nat);
                    }
                    return None;
                },
            };
            let signed = if c % 2 == 1 {
                p.neg()
            } else {
                p
            };
            match sum.add(&signed) {
                Some(v) => {
                    sum = v;
                },
                None => {
                    proof {
                        assert(det_sum_n(tensor@, (c + 1) as nat) is None);
                        lemma_det_sum_none(tensor@, (c + 1) as nat, n as nat);
                    }
                    return None;
                },
            }
            c += 1;
        }
        Some(sum)
    }
}

/// Every cofactor determinant of the grid is representable.
pub open spec fn adj_ok(g: Grid) -> bool {
    forall|r: int, c: int|
        0 <= r < g.len() && 0 <= c < g.len() ==> (#[trigger] det_n(g_minor(g, r, c))) is Some
}

pub open spec fn adj_val(g: Grid) -> Grid {
    Seq::new(
        g.len(),
        |r: int| Seq::new(
            g.len(),
            |c: int|
                {
                    let d = det_n(g_minor(g, r, c)).unwrap();
                    if (r + c) % 2 == 0 {
                        d
                    } else {
                        q_neg(d)
                    }
                },
        ),
    )
}

/// Mirror of `adjugate`: the matrix of signed cofactor determinants (not
/// yet transposed).
pub open spec fn adj_n(g: Grid) -> Option<Grid> {
    if adj_ok(g) {
        Some(adj_val(g))
    } else {
        None
    }
}

/// The matrix of signed cofactor determinants of a square tensor.
pub fn adjugate(tensor: &Tensor) -> (r: Option<Tensor>)
    requires
        tensor.wf(),
        tensor@.len() >= 2,
        tensor@.len() == g_cols(tensor@),
    ensures
        opt_gv(r) == adj_n(tensor@),
        r matches Some(t) ==> t.wf() && t@.len() == tensor@.len() && g_cols(t@) == tensor@.len(),
{
    let n = tensor.data.len();
    let mut data: Vec<Vec<Rat>> = Vec::new();
    let mut i: usize = 0;
    while i < n
        invariant
            i <= n,
            n == tensor@.len(),
            n >= 2,
            tensor.wf(),
            tensor@.len() == g_cols(tensor@),
            data@.len() == i,
            forall|r2: int| 0 <= r2 < i ==> (#[trigger] data@[r2])@.len() == n,
            forall|r2: int, c2: int|
                0 <= r2 < i && 0 <= c2 < n ==> (#[trigger] det_n(g_minor(tensor@, r2, c2)))
                    is Some,
            forall|r2: int, c2: int|
                0 <= r2 < i && 0 <= c2 < n ==> ((#[trigger] data@[r2]@[c2])@ == adj_val(
                    tensor@,
                )[r2][c2] && data@[r2]@[c2].wf()),
        decreases n - i,
    {
        let mut row: Vec<Rat> = Vec::new();
        let mut j: usize = 0;
        while j < n
            invariant
                j <= n,
                i < n,
                n == tensor@.len(),
                n >= 2,
                tensor.wf(),
                tensor@.len() == g_cols(tensor@),
                row@.len() == j,
                forall|c2: int|
                    0 <= c2 < j ==> (#[trigger] det_n(g_minor(tensor@, i as int, c2))) is Some,
                forall|c2: int|
                    0 <= c2 < j ==> ((#[trigger] row@[c2])@ == adj_val(tensor@)[i as int][c2]
                        && row@[c2].wf()),
            decreases n - j,
        {
            let minor = cofactor(tensor, i, j);
            proof {
                assert(g_cols(minor@) == g_cols(tensor@) - 1);
            }
            let d = match determinant(&minor) {
                Some(d) => d,
                None => {
                    proof {
                        assert(det_n(g_minor(tensor@, i as int, j as int)) is None);
                        assert(!adj_ok(tensor@));
                    }
                    return None;
                },
            };
            let signed = if (i % 2) != (j % 2) {
                d.neg()
            } else {
                d
            };
            proof {
                assert(((i % 2) != (j % 2)) == ((i + j) % 2 == 1));
                assert(det_n(g_minor(tensor@, i as int, j as int)) == Some(d@));
                assert(signed@ == adj_val(tensor@)[i as int][j as int]);
            }
            row.push(signed);
            j += 1;
        }
        data.push(row);
        proof {
            assert(data@[i as int] == row);
            assert(forall|c2: int|
                0 <= c2 < n ==> data@[i as int]@[c2] == (#[trigger] row@[c2]));
        }
        i += 1;
    }
    let t = Tensor { data };
    proof {
        assert forall|r2: int, c2: int|
            0 <= r2 < tensor@.len() && 0 <= c2 < tensor@.len() implies (#[trigger] det_n(
            g_minor(tensor@, r2, c2),
        )) is Some by {
            assert(data@[r2]@[c2]@ == adj_val(tensor@)[r2][c2]);
            assert(det_n(g_minor(tensor@, r2, c2)) is Some);
        }
        assert(adj_ok(tensor@));
        assert(t@ =~~= adj_val(tensor@));
        assert(forall|r2: int|
            0 <= r2 < t@.len() ==> (#[trigger] t@[r2]).len() == tensor@.len());
    }
    Some(t)
}

/// Whether a square tensor is singular: its determinant denotes zero.
/// Callers of `inverse` can use this to recognize the zero-matrix
/// sentinel in advance.
pub fn is_singular(tensor: &Tensor) -> (r: Option<bool>)
    requires
        tensor.wf(),
        tensor@.len() >= 1,
        tensor@.len() == g_cols(tensor@),
    ensures
        r == (match det_n(tensor@) {
            Some(v) => Some(v.0 == 0),
            None => None::<bool>,
        }),
{
    match determinant(tensor) {
        Some(d) => Some(d.is_zero()),
        None => None,
    }
}

/// The reciprocal of a nonzero fraction, sign carried by the numerator.
pub open spec fn q_recip(x: (int, int)) -> (int, int)
    recommends
        x.0 != 0,
{
    if x.0 < 0 {
        (-x.1, -x.0)
    } else {
        (x.1, x.0)
    }
}

/// Mirror of `inverse`: the zero matrix for a singular input, and
/// otherwise the transposed adjugate scaled by the reciprocal of the
/// determinant.
pub open spec fn inv_n(g: Grid) -> Option<Grid> {
    match det_n(g) {
        None => None,
        Some(dv) => if dv.0 == 0 {
            Some(zero_grid(g.len(), g.len()))
        } else {
            match adj_n(g) {
                None => None,
                Some(ad) => scale_n(q_recip(dv), g_transpose(ad)),
            }
        },
    }
}

/// The inverse of a square tensor.  A singular input yields a zero matrix
/// of the same shape rather than an error; callers must check for that
/// sentinel.
pub fn inverse(tensor: &Tensor) -> (r: Option<Tensor>)
    requires
        tensor.wf(),
        tensor@.len() >= 1,
        tensor@.len() == g_cols(tensor@),
        tensor@.len() == 1 ==> tensor@[0][0].0 == 0,
    ensures
        opt_gv(r) == inv_n(tensor@),
        r matches Some(t) ==> t.wf() && t@.len() == tensor@.len() && g_cols(t@) == tensor@.len(),
{
    let n = tensor.data.len();
    let det = match determinant(tensor) {
        Some(d) => d,
        None => {
            return None;
        },
    };
    if det.is_zero() {
        return Some(create_tensor(n, n));
    }
    let adj = match adjugate(tensor) {
        Some(a) => a,
        None => {
            return None;
        },
    };
    let trans = transpose(&adj);
    let s = det.recip();
    proof {
        assert(s@ == q_recip(det@));
        assert(g_cols(adj@) == tensor@.len());
    }
    scale(&trans, &s)
}

// ---------------------------------------------------------------------------
// Linear solver.
// ---------------------------------------------------------------------------

/// `x` has strictly larger magnitude than `y`.
pub open spec fn q_abs_gt(x: (int, int), y: (int, int)) -> bool
    recommends
        q_valid(x),
        q_valid(y),
{
    (vstd::math::abs(x.0) as int) * y.1 > (vstd::math::abs(y.0) as int) * x.1
}

/// The augmented matrix `[a | b]`.
pub open spec fn aug_grid(a: Grid, b: Grid) -> Grid {
    Seq::new(a.len(), |i: int| a[i] + b[i])
}

/// The row of largest magnitude in column `col` among rows `col..j`,
/// scanning upward and keeping the earliest maximum.
pub open spec fn pivot_n(g: Grid, col: int, j: int) -> int
    decreases j - col,
{
    if j <= col + 1 {
        col
    } else {
        let p = pivot_n(g, col, j - 1);
        if q_abs_gt(g[j - 1][col], g[p][col]) {
            j - 1
        } else {
            p
        }
    }
}

proof fn lemma_pivot_range(g: Grid, col: int, j: int)
    requires
        col >= 0,
    ensures
        col <= pivot_n(g, col, j),
        j > col ==> pivot_n(g, col, j) < j,
    decreases j - col,
{
    if j > col + 1 {
        lemma_pivot_range(g, col, j - 1);
    }
}

pub open spec fn swap_rows(g: Grid, a: int, b: int) -> Grid {
    g.update(a, g[b]).update(b, g[a])
}

/// One eliminated cell: `g[j][k] - g[i][k] * factor`.
pub open spec fn elim_cell_n(g: Grid, i: int, factor: (int, int), j: int, k: int) -> Option<
    (int, int),
> {
    match mul_n(g[i][k], factor) {
        None => None,
        Some(p) => sub_n(g[j][k], p),
    }
}

/// Row `j` after elimination against pivot row `i`: cells left of the
/// pivot column are untouched, the rest have the scaled pivot row
/// subtracted.
pub open spec fn elim_row_n(g: Grid, i: int, j: int) -> Option<Seq<(int, int)>> {
    match div_n(g[j][i], g[i][i]) {
        None => None,
        Some(f) => if forall|k: int|
            i <= k < g[j].len() ==> (#[trigger] elim_cell_n(g, i, f, j, k)) is Some {
            Some(
                Seq::new(
                    g[j].len(),
                    |k: int| if k < i {
                        g[j][k]
                    } else {
                        elim_cell_n(g, i, f, j, k).unwrap()
                    },
                ),
            )
        } else {
            None
        },
    }
}

/// All rows below pivot `i` eliminated.
pub open spec fn elim_step_n(g: Grid, i: int) -> Option<Grid> {
    if forall|j: int| i < j < g.len() ==> (#[trigger] elim_row_n(g, i, j)) is Some {
        Some(
            Seq::new(
                g.len(),
                |j: int| if j <= i {
                    g[j]
                } else {
                    elim_row_n(g, i, j).unwrap()
                },
            ),
        )
    } else {
        None
    }
}

/// The augmented matrix after the first `i` pivoting and elimination
/// steps of forward elimination.
pub open spec fn forward_n(g: Grid, i: nat) -> Option<Grid>
    decreases i,
{
    if i == 0 {
        Some(g)
    } else {
        match forward_n(g, (i - 1) as nat) {
            None => None,
            Some(h) => {
                let p = pivot_n(h, i - 1, h.len() as int);
                elim_step_n(swap_rows(h, i - 1, p), i - 1)
            },
        }
    }
}

proof fn lemma_forward_none(g: Grid, i: nat, ii: nat)
    requires
        i <= ii,
        forward_n(g, i) is None,
    ensures
        forward_n(g, ii) is None,
    decreases ii,
{
    if ii > i {
        lemma_forward_none(g, i, (ii - 1) as nat);
    }
}

/// One back-substitution update of row `j`: the entry in column `ln`
/// becomes `g[j][ln] - g[j][i] * xi`.
pub open spec fn back_cell_n(g: Grid, i: int, xi: (int, int), j: int, ln: int) -> Option<
    (int, int),
> {
    match mul_n(g[j][i], xi) {
        None => None,
        Some(p) => sub_n(g[j][ln], p),
    }
}

/// All rows above `i` updated in column `ln`.
pub open spec fn back_update_n(g: Grid, i: int, xi: (int, int), ln: int) -> Option<Grid> {
    if forall|j: int| 0 <= j < i ==> (#[trigger] back_cell_n(g, i, xi, j, ln)) is Some {
        Some(
            Seq::new(
                g.len(),
                |j: int| if 0 <= j < i {
                    g[j].update(ln, back_cell_n(g, i, xi, j, ln).unwrap())
                } else {
                    g[j]
                },
            ),
        )
    } else {
        None
    }
}

/// State after `t` back-substitution steps, working upward from the last
/// row: the current augmented matrix and the solution entries found so
/// far (unsolved entries still zero).
pub open spec fn back_n(g: Grid, xs: Seq<(int, int)>, ln: int, t: nat) -> Option<
    (Grid, Seq<(int, int)>),
>
    decreases t,
{
    if t == 0 {
        Some((g, xs))
    } else {
        match back_n(g, xs, ln, (t - 1) as nat) {
            None => None,
            Some(hy) => {
                let i = g.len() - t;
                match div_n(hy.0[i][ln], hy.0[i][i]) {
                    None => None,
                    Some(xi) => match back_update_n(hy.0, i, xi, ln) {
                        None => None,
                        Some(h2) => Some((h2, hy.1.update(i, xi))),
                    },
                }
            },
        }
    }
}

proof fn lemma_back_ys_len(g: Grid, xs: Seq<(int, int)>, ln: int, t: nat)
    requires
        back_n(g, xs, ln, t) is Some,
        xs.len() == g.len(),
        t <= g.len(),
    ensures
        back_n(g, xs, ln, t).unwrap().1.len() == xs.len(),
    decreases t,
{
    if t > 0 {
        lemma_back_ys_len(g, xs, ln, (t - 1) as nat);
    }
}

proof fn lemma_back_none(g: Grid, xs: Seq<(int, int)>, ln: int, t: nat, tt: nat)
    requires
        t <= tt,
        back_n(g, xs, ln, t) is None,
    ensures
        back_n(g, xs, ln, tt) is None,
    decreases tt,
{
    if tt > t {
        lemma_back_none(g, xs, ln, t, (tt - 1) as nat);
    }
}

pub open spec fn zero_row(n: nat) -> Seq<(int, int)> {
    Seq::new(n, |k: int| (0int, 1int))
}

/// Mirror of `solve_linear`: forward elimination with partial pivoting on
/// the augmented matrix, then back substitution; the solution as a 1xN
/// grid.  `None` when a pivot is exactly zero (the system is singular) or
/// an exact intermediate is unrepresentable.
pub open spec fn solve_n(a: Grid, b: Grid) -> Option<Grid> {
    let g0 = aug_grid(a, b);
    let n = a.len();
    match forward_n(g0, n) {
        None => None,
        Some(h) => match back_n(h, zero_row(n), n as int, n) {
            None => None,
            Some(hy) => Some(seq![hy.1]),
        },
    }
}

fn clone_row(row: &Vec<Rat>) -> (r: Vec<Rat>)
    ensures
        r@ == row@,
{
    let mut out: Vec<Rat> = Vec::new();
    let mut k: usize = 0;
    while k < row.len()
        invariant
            k <= row@.len(),
            out@.len() == k,
            forall|t: int| 0 <= t < k ==> out@[t] == row@[t],
        decreases row@.len() - k,
    {
        out.push(row[k]);
        k += 1;
    }
    proof {
        assert(out@ =~= row@);
    }
    out
}

/// The fractions held in a row of working storage.
pub open spec fn row_vals(row: Seq<Rat>) -> Seq<(int, int)> {
    Seq::new(row.len(), |k: int| row[k]@)
}

pub open spec fn row_wf(row: Seq<Rat>) -> bool {
    forall|k: int| 0 <= k < row.len() ==> (#[trigger] row[k]).wf()
}

/// The working rows hold exactly the grid `h`.
pub open spec fn rows_match(aug: Seq<Vec<Rat>>, h: Grid) -> bool {
    &&& aug.len() == h.len()
    &&& forall|r: int|
        0 <= r < h.len() ==> row_vals((#[trigger] aug[r])@) == h[r] && row_wf(aug[r]@)
}

/// Select the pivot row for column `i`: the earliest row of largest
/// magnitude in that column at or below the diagonal.
fn pivot_select(aug: &Vec<Vec<Rat>>, i: usize, n: usize, Ghost(h): Ghost<Grid>) -> (p: usize)
    requires
        aug@.len() == n,
        h.len() == n,
        rows_match(aug@, h),
        forall|r: int| 0 <= r < n ==> (#[trigger] aug@[r])@.len() == n + 1,
        (i as int) < n,
    ensures
        i <= p < n,
        p as int == pivot_n(h, i as int, n as int),
{
    let mut max_row: usize = i;
    let mut j: usize = i + 1;
    while j < n
        invariant
            aug@.len() == n,
            h.len() == n,
            rows_match(aug@, h),
            forall|r: int| 0 <= r < n ==> (#[trigger] aug@[r])@.len() == n + 1,
            (i as int) < n,
            i + 1 <= j <= n,
            i <= max_row < n,
            max_row as int == pivot_n(h, i as int, j as int),
        decreases n - j,
    {
        proof {
            assert(row_vals(aug@[j as int]@) == h[j as int]);
            assert(row_vals(aug@[j as int]@)[i as int] == aug@[j as int]@[i as int]@);
            assert(row_vals(aug@[max_row as int]@) == h[max_row as int]);
            assert(row_vals(aug@[max_row as int]@)[i as int] == aug@[max_row as int]@[i as int]@);
        }
        let x = aug[j][i];
        let m = aug[max_row][i];
        proof {
            assert(x@ == h[j as int][i as int] && x.wf());
            assert(m@ == h[max_row as int][i as int] && m.wf());
        }
        let xa = x.abs_val();
        let ma = m.abs_val();
        if ma.lt(&xa) {
            proof {
                assert(q_abs_gt(h[j as int][i as int], h[pivot_n(h, i as int, j as int)][i as int]));
            }
            max_row = j;
        } else {
            proof {
                assert(!q_abs_gt(h[j as int][i as int], h[pivot_n(h, i as int, j as int)][i as int]));
            }
        }
        proof {
            assert(pivot_n(h, i as int, (j + 1) as int) == max_row as int);
        }
        j += 1;
    }
    max_row
}

/// Build row `j` eliminated against pivot row `i`; `None` when the mirror
/// fails there (zero pivot or an unrepresentable exact value).
fn build_elim_row(
    aug: &Vec<Vec<Rat>>,
    i: usize,
    j: usize,
    n: usize,
    Ghost(hs): Ghost<Grid>,
) -> (r: Option<Vec<Rat>>)
    requires
        aug@.len() == n,
        hs.len() == n,
        (i as int) < n,
        i < j,
        (j as int) < n,
        forall|r2: int| 0 <= r2 < n ==> (#[trigger] aug@[r2])@.len() == n + 1,
        row_vals(aug@[i as int]@) == hs[i as int],
        row_wf(aug@[i as int]@),
        row_vals(aug@[j as int]@) == hs[j as int],
        row_wf(aug@[j as int]@),
    ensures
        r is Some <==> elim_row_n(hs, i as int, j as int) is Some,
        r matches Some(row) ==> row@.len() == n + 1 && row_vals(row@) == elim_row_n(
            hs,
            i as int,
            j as int,
        ).unwrap() && row_wf(row@),
{
    proof {
        assert(hs[i as int].len() == n + 1);
        assert(hs[j as int].len() == n + 1);
        assert(row_vals(aug@[j as int]@)[i as int] == aug@[j as int]@[i as int]@);
        assert(row_vals(aug@[i as int]@)[i as int] == aug@[i as int]@[i as int]@);
    }
    let lead = aug[j][i];
    let piv = aug[i][i];
    proof {
        assert(lead@ == hs[j as int][i as int] && lead.wf());
        assert(piv@ == hs[i as int][i as int] && piv.wf());
    }
    let factor = match lead.div(&piv) {
        Some(f) => f,
        None => {
            return None;
        },
    };
    let ghost f = factor@;
    let mut row: Vec<Rat> = Vec::new();
    let mut k: usize = 0;
    while k < i
        invariant
            aug@.len() == n,
            hs.len() == n,
            (i as int) < n,
            i < j,
            (j as int) < n,
            k <= i,
            forall|r2: int| 0 <= r2 < n ==> (#[trigger] aug@[r2])@.len() == n + 1,
            row_vals(aug@[j as int]@) == hs[j as int],
            row_wf(aug@[j as int]@),
            hs[j as int].len() == n + 1,
            row@.len() == k,
            forall|c2: int|
                0 <= c2 < k ==> (#[trigger] row@[c2])@ == hs[j as int][c2] && row@[c2].wf(),
        decreases i - k,
    {
        proof {
            assert(row_vals(aug@[j as int]@)[k as int] == aug@[j as int]@[k as int]@);
        }
        let v = aug[j][k];
        proof {
            assert(v@ == hs[j as int][k as int] && v.wf());
        }
        row.push(v);
        k += 1;
    }
    let w = aug[i].len();
    proof {
        assert(w == n + 1);
    }
    let mut k: usize = i;
    while k < w
        invariant
            w == n + 1,
            aug@.len() == n,
            hs.len() == n,
            (i as int) < n,
            i < j,
            (j as int) < n,
            i <= k <= n + 1,
            forall|r2: int| 0 <= r2 < n ==> (#[trigger] aug@[r2])@.len() == n + 1,
            row_vals(aug@[i as int]@) == hs[i as int],
            row_wf(aug@[i as int]@),
            row_vals(aug@[j as int]@) == hs[j as int],
            row_wf(aug@[j as int]@),
            hs[i as int].len() == n + 1,
            hs[j as int].len() == n + 1,
            div_n(hs[j as int][i as int], hs[i as int][i as int]) == Some(f),
            factor@ == f,
            factor.wf(),
            row@.len() == k,
            forall|c2: int|
                0 <= c2 < i ==> (#[trigger] row@[c2])@ == hs[j as int][c2] && row@[c2].wf(),
            forall|c2: int|
                i <= c2 < k ==> (#[trigger] elim_cell_n(hs, i as int, f, j as int, c2)) is Some,
            forall|c2: int|
                i <= c2 < k ==> (#[trigger] row@[c2])@ == elim_cell_n(
                    hs,
                    i as int,
                    f,
                    j as int,
                    c2,
                ).unwrap() && row@[c2].wf(),
        decreases n + 1 - k,
    {
        proof {
            assert(row_vals(aug@[i as int]@)[k as int] == aug@[i as int]@[k as int]@);
            assert(row_vals(aug@[j as int]@)[k as int] == aug@[j as int]@[k as int]@);
        }
        let x = aug[i][k];
        let y = aug[j][k];
        proof {
            assert(x@ == hs[i as int][k as int] && x.wf());
            assert(y@ == hs[j as int][k as int] && y.wf());
        }
        let p = match x.mul(&factor) {
            Some(p) => p,
            None => {
                proof {
                    assert(elim_cell_n(hs, i as int, f, j as int, k as int) is None);
                    assert(elim_row_n(hs, i as int, j as int) is None);
                }
                return None;
            },
        };
        let v = match y.sub(&p) {
            Some(v) => v,
            None => {
                proof {
                    assert(elim_cell_n(hs, i as int, f, j as int, k as int) is None);
                    assert(elim_row_n(hs, i as int, j as int) is None);
                }
                return None;
            },
        };
        row.push(v);
        k += 1;
    }
    proof {
        assert(elim_row_n(hs, i as int, j as int) is Some);
        let er = elim_row_n(hs, i as int, j as int).unwrap();
        assert forall|c2: int| 0 <= c2 < n + 1 implies row_vals(row@)[c2] == er[c2] by {
            assert(row_vals(row@)[c2] == row@[c2]@);
            if c2 < i as int {
                assert(row@[c2]@ == hs[j as int][c2]);
            } else {
                assert(row@[c2]@ == elim_cell_n(hs, i as int, f, j as int, c2).unwrap());
            }
        }
        assert(row_vals(row@) =~= er);
    }
    Some(row)
}

/// Build row `jj` with its constant column updated during back
/// substitution for solved entry `xi` of row `i`.
fn back_build_row(
    aug: &Vec<Vec<Rat>>,
    i: usize,
    jj: usize,
    n: usize,
    xi: &Rat,
    Ghost(hc): Ghost<Grid>,
) -> (r: Option<Vec<Rat>>)
    requires
        aug@.len() == n,
        hc.len() == n,
        jj < i,
        (i as int) < n,
        xi.wf(),
        forall|r2: int| 0 <= r2 < n ==> (#[trigger] aug@[r2])@.len() == n + 1,
        row_vals(aug@[jj as int]@) == hc[jj as int],
        row_wf(aug@[jj as int]@),
    ensures
        r is Some <==> back_cell_n(hc, i as int, xi@, jj as int, n as int) is Some,
        r matches Some(row) ==> row@.len() == n + 1 && row_vals(row@) == hc[jj as int].update(
            n as int,
            back_cell_n(hc, i as int, xi@, jj as int, n as int).unwrap(),
        ) && row_wf(row@),
{
    proof {
        assert(hc[jj as int].len() == n + 1);
        assert(row_vals(aug@[jj as int]@)[i as int] == aug@[jj as int]@[i as int]@);
        assert(row_vals(aug@[jj as int]@)[n as int] == aug@[jj as int]@[n as int]@);
    }
    let lead = aug[jj][i];
    let cur = aug[jj][n];
    proof {
        assert(lead@ == hc[jj as int][i as int] && lead.wf());
        assert(cur@ == hc[jj as int][n as int] && cur.wf());
    }
    let p = match lead.mul(xi) {
        Some(p) => p,
        None => {
            return None;
        },
    };
    let v = match cur.sub(&p) {
        Some(v) => v,
        None => {
            return None;
        },
    };
    let mut row = clone_row(&aug[jj]);
    row[n] = v;
    proof {
        let cell = back_cell_n(hc, i as int, xi@, jj as int, n as int).unwrap();
        assert forall|c2: int| 0 <= c2 < n + 1 implies row_vals(row@)[c2] == hc[jj as int].update(
            n as int,
            cell,
        )[c2] by {
            assert(row_vals(row@)[c2] == row@[c2]@);
            if c2 == n as int {
                assert(row@[c2] == v);
            } else {
                assert(row@[c2] == aug@[jj as int]@[c2]);
                assert(row_vals(aug@[jj as int]@)[c2] == aug@[jj as int]@[c2]@);
            }
        }
        assert(row_vals(row@) =~= hc[jj as int].update(n as int, cell));
        assert forall|k2: int| 0 <= k2 < row@.len() implies (#[trigger] row@[k2]).wf() by {
            if k2 != n as int {
                assert(row@[k2] == aug@[jj as int]@[k2]);
            }
        }
    }
    Some(row)
}

/// A fresh copy of a set of working rows.
pub fn clone_rows(m: &Vec<Vec<Rat>>) -> (r: Vec<Vec<Rat>>)
    ensures
        r@.len() == m@.len(),
        forall|i: int| 0 <= i < m@.len() ==> (#[trigger] r@[i])@ == m@[i]@,
{
    let mut out: Vec<Vec<Rat>> = Vec::new();
    let mut i: usize = 0;
    while i < m.len()
        invariant
            i <= m@.len(),
            out@.len() == i,
            forall|k: int| 0 <= k < i ==> (#[trigger] out@[k])@ == m@[k]@,
        decreases m@.len() - i,
    {
        let row = clone_row(&m[i]);
        out.push(row);
        i += 1;
    }
    out
}

/// Solve the square system `a * x = b` by Gaussian elimination with
/// partial pivoting and back substitution.  The result is a 1xN tensor
/// holding the solution.  A zero pivot (singular system) or an
/// unrepresentable exact intermediate yields `None`.
#[verifier::loop_isolation(false)]
#[verifier::rlimit(60)]
pub fn solve_linear(tensor: &Tensor, vector: &Tensor) -> (r: Option<Tensor>)
    requires
        tensor.wf(),
        vector.wf(),
        tensor@.len() >= 1,
        tensor@.len() == g_cols(tensor@),
        vector@.len() == tensor@.len(),
        g_cols(vector@) == 1,
    ensures
        opt_gv(r) == solve_n(tensor@, vector@),
        r matches Some(t) ==> t.wf() && t@.len() == 1 && g_cols(t@) == tensor@.len(),
{
    let n = tensor.data.len();
    // Build the augmented matrix [a | b].
    let mut aug: Vec<Vec<Rat>> = Vec::new();
    let mut i: usize = 0;
    while i < n
        invariant
            i <= n,
            aug@.len() == i,
            forall|r2: int| 0 <= r2 < i ==> (#[trigger] aug@[r2])@.len() == n + 1,
            forall|r2: int|
                0 <= r2 < i ==> row_vals((#[trigger] aug@[r2])@) == aug_grid(tensor@, vector@)[r2]
                    && row_wf(aug@[r2]@),
        decreases n - i,
    {
        proof {
            assert(tensor@[i as int].len() == g_cols(tensor@));
            assert(tensor@[i as int].len() == tensor.data@[i as int]@.len());
            assert(vector@[i as int].len() == g_cols(vector@));
            assert(vector@[i as int].len() == vector.data@[i as int]@.len());
        }
        let mut row = clone_row(&tensor.data[i]);
        let b = vector.data[i][0];
        row.push(b);
        proof {
            assert(b@ == vector@[i as int][0]);
            let target = aug_grid(tensor@, vector@)[i as int];
            assert(target == tensor@[i as int] + vector@[i as int]);
            assert forall|c2: int| 0 <= c2 < n + 1 implies row_vals(row@)[c2] == target[c2] by {
                assert(row_vals(row@)[c2] == row@[c2]@);
                if c2 < n {
                    assert(row@[c2] == tensor.data@[i as int]@[c2]);
                    assert(row@[c2]@ == tensor@[i as int][c2]);
                } else {
                    assert(row@[c2] == b);
                }
            }
            assert(row_vals(row@) =~= target);
            assert forall|k2: int| 0 <= k2 < row@.len() implies (#[trigger] row@[k2]).wf() by {
                if k2 < n {
                    assert(row@[k2] == tensor.data@[i as int]@[k2]);
                    assert(row@[k2]@ == tensor@[i as int][k2]);
                    assert(q_in_i64(tensor@[i as int][k2]));
                } else {
                    assert(row@[k2] == b);
                    assert(q_in_i64(vector@[i as int][0]));
                }
            }
        }
        aug.push(row);
        i += 1;
    }
    let ghost g0 = aug_grid(tensor@, vector@);
    proof {
        assert(rows_match(aug@, g0));
    }
    // Forward elimination with partial pivoting.
    let mut i: usize = 0;
    while i < n
        invariant
            i <= n,
            aug@.len() == n,
            forward_n(g0, i as nat) is Some,
            rows_match(aug@, forward_n(g0, i as nat).unwrap()),
            forall|r2: int| 0 <= r2 < n ==> (#[trigger] aug@[r2])@.len() == n + 1,
        decreases n - i,
    {
        let ghost h = forward_n(g0, i as nat).unwrap();
        let p = pivot_select(&aug, i, n, Ghost(h));
        let ghost hs = swap_rows(h, i as int, p as int);
        if p != i {
            let ri = clone_row(&aug[i]);
            let rp = clone_row(&aug[p]);
            aug[i] = rp;
            aug[p] = ri;
        }
        proof {
            assert(hs.len() == n);
            assert forall|r2: int|
                0 <= r2 < n implies row_vals((#[trigger] aug@[r2])@) == hs[r2] && row_wf(aug@[r2]@)
                && aug@[r2]@.len() == n + 1 by {
                if r2 == i as int {
                    assert(hs[r2] == h[p as int]);
                } else if r2 == p as int {
                    assert(hs[r2] == h[i as int]);
                } else {
                    assert(hs[r2] == h[r2]);
                }
            }
        }
        let mut j: usize = i + 1;
        while j < n
            invariant
                i < n,
                i + 1 <= j <= n,
                aug@.len() == n,
                hs.len() == n,
                forall|r2: int| 0 <= r2 < n ==> (#[trigger] aug@[r2])@.len() == n + 1,
                forall|r2: int|
                    i < r2 < j ==> (#[trigger] elim_row_n(hs, i as int, r2)) is Some,
                forall|r2: int|
                    0 <= r2 < n && (r2 <= i || r2 >= j) ==> row_vals((#[trigger] aug@[r2])@)
                        == hs[r2] && row_wf(aug@[r2]@),
                forall|r2: int|
                    i < r2 < j ==> row_vals((#[trigger] aug@[r2])@) == elim_row_n(
                        hs,
                        i as int,
                        r2,
                    ).unwrap() && row_wf(aug@[r2]@),
            decreases n - j,
        {
            let newrow = match build_elim_row(&aug, i, j, n, Ghost(hs)) {
                Some(row) => row,
                None => {
                    proof {
                        assert(elim_row_n(hs, i as int, j as int) is None);
                        assert(elim_step_n(hs, i as int) is None);
                        assert(forward_n(g0, (i + 1) as nat) is None);
                        lemma_forward_none(g0, (i + 1) as nat, n as nat);
                        assert(solve_n(tensor@, vector@) is None);
                    }
                    return None;
                },
            };
            aug[j] = newrow;
            j += 1;
        }
        proof {
            assert(elim_step_n(hs, i as int) is Some);
            let h2 = elim_step_n(hs, i as int).unwrap();
            assert(forward_n(g0, (i + 1) as nat) == Some(h2));
            assert(h2.len() == n);
            assert forall|r2: int|
                0 <= r2 < n implies row_vals((#[trigger] aug@[r2])@) == h2[r2] && row_wf(
                aug@[r2]@,
            ) by {
                if r2 <= i as int {
                    assert(h2[r2] == hs[r2]);
                } else {
                    assert(h2[r2] == elim_row_n(hs, i as int, r2).unwrap());
                }
            }
            assert(rows_match(aug@, h2));
        }
        i += 1;
    }
    let ghost hfinal = forward_n(g0, n as nat).unwrap();
    // Back substitution.
    let mut x: Vec<Rat> = Vec::new();
    let mut k: usize = 0;
    while k < n
        invariant
            k <= n,
            x@.len() == k,
            forall|t2: int| 0 <= t2 < k ==> (#[trigger] x@[t2])@ == (0int, 1int) && x@[t2].wf(),
        decreases n - k,
    {
        x.push(Rat::zero());
        k += 1;
    }
    proof {
        assert forall|t2: int| 0 <= t2 < n implies (#[trigger] x@[t2])@ == zero_row(n as nat)[t2]
            by {}
    }
    let mut t: usize = 0;
    while t < n
        invariant
            t <= n,
            aug@.len() == n,
            x@.len() == n,
            back_n(hfinal, zero_row(n as nat), n as int, t as nat) is Some,
            rows_match(aug@, back_n(hfinal, zero_row(n as nat), n as int, t as nat).unwrap().0),
            forall|r2: int|
                0 <= r2 < n ==> (#[trigger] x@[r2])@ == back_n(
                    hfinal,
                    zero_row(n as nat),
                    n as int,
                    t as nat,
                ).unwrap().1[r2] && x@[r2].wf(),
            forall|r2: int| 0 <= r2 < n ==> (#[trigger] aug@[r2])@.len() == n + 1,
        decreases n - t,
    {
        let ghost hy = back_n(hfinal, zero_row(n as nat), n as int, t as nat).unwrap();
        proof {
            lemma_back_ys_len(hfinal, zero_row(n as nat), n as int, t as nat);
        }
        let i = n - 1 - t;
        proof {
            assert(i as int == hfinal.len() - (t + 1));
            assert(row_vals(aug@[i as int]@)[n as int] == aug@[i as int]@[n as int]@);
            assert(row_vals(aug@[i as int]@)[i as int] == aug@[i as int]@[i as int]@);
        }
        let num = aug[i][n];
        let den = aug[i][i];
        proof {
            assert(num@ == hy.0[i as int][n as int] && num.wf());
            assert(den@ == hy.0[i as int][i as int] && den.wf());
        }
        let xi = match num.div(&den) {
            Some(v) => v,
            None => {
                proof {
                    assert(back_n(hfinal, zero_row(n as nat), n as int, (t + 1) as nat) is None);
                    lemma_back_none(hfinal, zero_row(n as nat), n as int, (t + 1) as nat, n as nat);
                    assert(solve_n(tensor@, vector@) is None);
                }
                return None;
            },
        };
        x[i] = xi;
        // Update the constant column of the rows above.
        let mut j: usize = i;
        while j > 0
            invariant
                j <= i,
                i < n,
                i as int == n - 1 - t,
                t < n,
                aug@.len() == n,
                div_n(hy.0[i as int][n as int], hy.0[i as int][i as int]) == Some(xi@),
                xi.wf(),
                forall|r2: int| 0 <= r2 < n ==> (#[trigger] aug@[r2])@.len() == n + 1,
                forall|r2: int|
                    j <= r2 < i ==> (#[trigger] back_cell_n(hy.0, i as int, xi@, r2, n as int))
                        is Some,
                forall|r2: int|
                    0 <= r2 < n && !(j <= r2 < i) ==> row_vals((#[trigger] aug@[r2])@)
                        == hy.0[r2] && row_wf(aug@[r2]@),
                forall|r2: int|
                    j <= r2 < i ==> row_vals((#[trigger] aug@[r2])@) == hy.0[r2].update(
                        n as int,
                        back_cell_n(hy.0, i as int, xi@, r2, n as int).unwrap(),
                    ) && row_wf(aug@[r2]@),
            decreases j,
        {
            let jj = j - 1;
            let newrow = match back_build_row(&aug, i, jj, n, &xi, Ghost(hy.0)) {
                Some(row) => row,
                None => {
                    proof {
                        assert(back_cell_n(hy.0, i as int, xi@, jj as int, n as int) is None);
                        assert(back_update_n(hy.0, i as int, xi@, n as int) is None);
                        assert(back_n(hfinal, zero_row(n as nat), n as int, (t + 1) as nat)
                            is None);
                        lemma_back_none(
                            hfinal,
                            zero_row(n as nat),
                            n as int,
                            (t + 1) as nat,
                            n as nat,
                        );
                        assert(solve_n(tensor@, vector@) is None);
                    }
                    return None;
                },
            };
            aug[jj] = newrow;
            j = jj;
        }
        proof {
            assert(back_update_n(hy.0, i as int, xi@, n as int) is Some);
            let h2 = back_update_n(hy.0, i as int, xi@, n as int).unwrap();
            let ys2 = hy.1.update(i as int, xi@);
            assert(back_n(hfinal, zero_row(n as nat), n as int, (t + 1) as nat) == Some((h2, ys2)));
            assert(h2.len() == n);
            assert forall|r2: int|
                0 <= r2 < n implies row_vals((#[trigger] aug@[r2])@) == h2[r2] && row_wf(
                aug@[r2]@,
            ) by {
                if 0 <= r2 < i as int {
                    assert(h2[r2] == hy.0[r2].update(
                        n as int,
                        back_cell_n(hy.0, i as int, xi@, r2, n as int).unwrap(),
                    ));
                } else {
                    assert(h2[r2] == hy.0[r2]);
                }
            }
            assert(rows_match(aug@, h2));
            assert forall|r2: int| 0 <= r2 < n implies ((#[trigger] x@[r2])@ == ys2[r2]
                && x@[r2].wf()) by {
                if r2 == i as int {
                    assert(x@[r2] == xi);
                } else {
                    assert(ys2[r2] == hy.1[r2]);
                }
            }
        }
        t += 1;
    }
    let mut data: Vec<Vec<Rat>> = Vec::new();
    data.push(x);
    let res = Tensor { data };
    proof {
        lemma_back_ys_len(hfinal, zero_row(n as nat), n as int, n as nat);
        let hy = back_n(hfinal, zero_row(n as nat), n as int, n as nat).unwrap();
        assert(res@ =~~= seq![hy.1]);
        assert(g_cols(res@) == n);
        assert(solve_n(tensor@, vector@) == Some(seq![hy.1]));
    }
    Some(res)
}

// ---------------------------------------------------------------------------
// QR decomposition and regression.
// ---------------------------------------------------------------------------

/// What `transpose` returns: the transposed grid, or the canonical empty
/// tensor when there are no columns.
pub open spec fn tr_x(g: Grid) -> Grid {
    if g_cols(g) == 0 {
        empty_grid()
    } else {
        g_transpose(g)
    }
}

/// Column `j` of a grid as an Nx1 grid.
pub open spec fn col_grid(g: Grid, j: int) -> Grid {
    Seq::new(g.len(), |i: int| seq![g[i][j]])
}

/// A grid with column `j` replaced by the Nx1 grid `vn`.
pub open spec fn set_col_n(g: Grid, j: int, vn: Grid) -> Grid {
    Seq::new(g.len(), |k: int| g[k].update(j, vn[k][0]))
}

/// The inner modified Gram-Schmidt loop: the working column and the
/// `R` rows after projecting out the first `k` orthonormal columns.
pub open spec fn qr_inner_n(q: Grid, rm: Grid, v0: Grid, j: int, k: nat) -> Option<(Grid, Grid)>
    decreases k,
{
    if k == 0 {
        Some((v0, rm))
    } else {
        match qr_inner_n(q, rm, v0, j, (k - 1) as nat) {
            None => None,
            Some(s) => {
                let i = k - 1;
                let qi = col_grid(q, i);
                match dot_n(g_transpose(qi), s.0) {
                    None => None,
                    Some(prod) => {
                        let rij = prod[0][0];
                        let rm2 = s.1.update(i, s.1[i].update(j, rij));
                        match scale_n(rij, qi) {
                            None => None,
                            Some(qis) => match combine_n(BinOp::Sub, s.0, qis) {
                                None => None,
                                Some(v2) => Some((v2, rm2)),
                            },
                        }
                    },
                }
            },
        }
    }
}

proof fn lemma_qr_inner_none(q: Grid, rm: Grid, v0: Grid, j: int, k: nat, kk: nat)
    requires
        k <= kk,
        qr_inner_n(q, rm, v0, j, k) is None,
    ensures
        qr_inner_n(q, rm, v0, j, kk) is None,
    decreases kk,
{
    if kk > k {
        lemma_qr_inner_none(q, rm, v0, j, k, (kk - 1) as nat);
    }
}

/// The outer modified Gram-Schmidt loop: `Q` and `R` after the first `t`
/// columns have been orthogonalized.
pub open spec fn qr_outer_n(a: Grid, q0: Grid, rm0: Grid, t: nat) -> Option<(Grid, Grid)>
    decreases t,
{
    if t == 0 {
        Some((q0, rm0))
    } else {
        match qr_outer_n(a, q0, rm0, (t - 1) as nat) {
            None => None,
            Some(s) => {
                let j = t - 1;
                match qr_inner_n(s.0, s.1, col_grid(a, j), j, j as nat) {
                    None => None,
                    Some(vr) => match magnitude_n(vr.0) {
                        None => None,
                        Some(rjj) => {
                            let rm2 = vr.1.update(j, vr.1[j].update(j, rjj));
                            match scale_div_n(rjj, vr.0) {
                                None => None,
                                Some(vn) => Some((set_col_n(s.0, j, vn), rm2)),
                            }
                        },
                    },
                }
            },
        }
    }
}

proof fn lemma_qr_outer_none(a: Grid, q0: Grid, rm0: Grid, t: nat, tt: nat)
    requires
        t <= tt,
        qr_outer_n(a, q0, rm0, t) is None,
    ensures
        qr_outer_n(a, q0, rm0, tt) is None,
    decreases tt,
{
    if tt > t {
        lemma_qr_outer_none(a, q0, rm0, t, (tt - 1) as nat);
    }
}

/// Mirror of `qr`: modified Gram-Schmidt on all columns, starting from
/// zero-filled `Q` and `R`.
pub open spec fn qr_n(a: Grid) -> Option<(Grid, Grid)> {
    qr_outer_n(a, zero_grid(a.len(), g_cols(a)), zero_grid(g_cols(a), g_cols(a)), g_cols(a))
}

pub open spec fn opt_pgv(r: Option<(Tensor, Tensor)>) -> Option<(Grid, Grid)> {
    match r {
        Some(p) => Some((p.0@, p.1@)),
        None => None,
    }
}

/// The working rows of a tensor hold exactly its grid.
proof fn lemma_tensor_rows_match(t: &Tensor)
    requires
        t.wf(),
    ensures
        rows_match(t.data@, t@),
{
    assert forall|r: int| 0 <= r < t@.len() implies row_vals((#[trigger] t.data@[r])@) == t@[r]
        && row_wf(t.data@[r]@) by {
        assert(row_vals(t.data@[r]@) =~= t@[r]);
        assert forall|c: int|
            0 <= c < t.data@[r]@.len() implies (#[trigger] t.data@[r]@[c]).wf() by {
            assert(t.data@[r]@[c]@ == t@[r][c]);
            assert(q_in_i64(t@[r][c]));
        }
    }
}

/// A tensor whose working rows hold the grid `g` has `g` as its view.
proof fn lemma_rows_match_view(t: &Tensor, g: Grid)
    requires
        rows_match(t.data@, g),
    ensures
        t@ == g,
{
    assert forall|r: int| 0 <= r < t@.len() implies (#[trigger] t@[r]) == g[r] by {
        assert(row_vals(t.data@[r]@) == g[r]);
        assert(t@[r] =~= row_vals(t.data@[r]@));
    }
    assert(t@ =~= g);
}

/// Extract column `j` of the working rows as an Nx1 tensor.
fn col_tensor(m: &Vec<Vec<Rat>>, j: usize, Ghost(g): Ghost<Grid>) -> (t: Tensor)
    requires
        rows_match(m@, g),
        forall|r: int| 0 <= r < g.len() ==> (j as int) < (#[trigger] g[r]).len(),
    ensures
        t.wf(),
        t@ == col_grid(g, j as int),
        t@.len() == g.len(),
        forall|r: int| 0 <= r < t@.len() ==> (#[trigger] t@[r]).len() == 1,
{
    let n = m.len();
    let mut data: Vec<Vec<Rat>> = Vec::new();
    let mut i: usize = 0;
    while i < n
        invariant
            i <= n,
            n == m@.len(),
            rows_match(m@, g),
            forall|r: int| 0 <= r < g.len() ==> (j as int) < (#[trigger] g[r]).len(),
            data@.len() == i,
            forall|r: int| #![trigger data@[r]]
                0 <= r < i ==> data@[r]@.len() == 1 && data@[r]@[0]@ == g[r][j as int]
                    && data@[r]@[0].wf(),
        decreases n - i,
    {
        proof {
            assert(row_vals(m@[i as int]@) == g[i as int]);
            assert(row_vals(m@[i as int]@)[j as int] == m@[i as int]@[j as int]@);
        }
        let x = m[i][j];
        proof {
            assert(x@ == g[i as int][j as int] && x.wf());
        }
        let mut row: Vec<Rat> = Vec::new();
        row.push(x);
        data.push(row);
        i += 1;
    }
    let t = Tensor { data };
    proof {
        assert(t@ =~~= col_grid(g, j as int));
    }
    t
}

/// Replace the cell `(i, j)` of the working rows.
fn set_cell(m: &mut Vec<Vec<Rat>>, i: usize, j: usize, v: Rat, Ghost(g): Ghost<Grid>)
    requires
        rows_match(old(m)@, g),
        (i as int) < g.len(),
        (j as int) < g[i as int].len(),
        v.wf(),
    ensures
        final(m)@.len() == old(m)@.len(),
        rows_match(final(m)@, g.update(i as int, g[i as int].update(j as int, v@))),
{
    proof {
        assert(row_vals(old(m)@[i as int]@) == g[i as int]);
    }
    let mut row = clone_row(&m[i]);
    row[j] = v;
    m[i] = row;
    proof {
        let g2 = g.update(i as int, g[i as int].update(j as int, v@));
        assert forall|r: int| 0 <= r < g2.len() implies row_vals((#[trigger] m@[r])@) == g2[r]
            && row_wf(m@[r]@) by {
            if r == i as int {
                assert forall|c: int| 0 <= c < g2[r].len() implies row_vals(m@[r]@)[c] == g2[r][c]
                    by {
                    assert(row_vals(m@[r]@)[c] == m@[r]@[c]@);
                    if c != j as int {
                        assert(m@[r]@[c] == old(m)@[r]@[c]);
                        assert(row_vals(old(m)@[r]@)[c] == old(m)@[r]@[c]@);
                    }
                }
                assert(row_vals(m@[r]@) =~= g2[r]);
                assert forall|c: int| 0 <= c < m@[r]@.len() implies (#[trigger] m@[r]@[c]).wf()
                    by {
                    if c != j as int {
                        assert(m@[r]@[c] == old(m)@[r]@[c]);
                    }
                }
            } else {
                assert(m@[r] == old(m)@[r]);
                assert(row_vals(old(m)@[r]@) == g[r]);
                assert(g2[r] == g[r]);
            }
        }
    }
}

/// Replace column `j` of the working rows with the Nx1 tensor `vn`.
fn set_col(q: &mut Vec<Vec<Rat>>, j: usize, vn: &Tensor, Ghost(g): Ghost<Grid>)
    requires
        rows_match(old(q)@, g),
        forall|r: int| 0 <= r < g.len() ==> (j as int) < (#[trigger] g[r]).len(),
        vn.wf(),
        vn@.len() == g.len(),
        forall|r: int| 0 <= r < vn@.len() ==> (#[trigger] vn@[r]).len() == 1,
    ensures
        final(q)@.len() == old(q)@.len(),
        rows_match(final(q)@, set_col_n(g, j as int, vn@)),
{
    let n = q.len();
    let mut k: usize = 0;
    while k < n
        invariant
            k <= n,
            n == q@.len(),
            n == g.len(),
            forall|r: int| 0 <= r < g.len() ==> (j as int) < (#[trigger] g[r]).len(),
            vn.wf(),
            vn@.len() == g.len(),
            forall|r: int| 0 <= r < vn@.len() ==> (#[trigger] vn@[r]).len() == 1,
            forall|r: int|
                k <= r < n ==> row_vals((#[trigger] q@[r])@) == g[r] && row_wf(q@[r]@),
            forall|r: int|
                0 <= r < k ==> row_vals((#[trigger] q@[r])@) == g[r].update(
                    j as int,
                    vn@[r][0],
                ) && row_wf(q@[r]@),
        decreases n - k,
    {
        proof {
            assert(vn@[k as int].len() == 1);
            assert(q_in_i64(vn@[k as int][0]));
            assert(vn@[k as int][0] == vn.data@[k as int]@[0]@);
        }
        let val = vn.data[k][0];
        proof {
            assert(val@ == vn@[k as int][0] && val.wf());
            assert(row_vals(q@[k as int]@) == g[k as int]);
        }
        let ghost prerow = q@[k as int]@;
        let mut row = clone_row(&q[k]);
        row[j] = val;
        q[k] = row;
        proof {
            let target = g[k as int].update(j as int, vn@[k as int][0]);
            assert(row_vals(prerow) == g[k as int]);
            assert forall|c: int| 0 <= c < target.len() implies row_vals(q@[k as int]@)[c]
                == target[c] by {
                assert(row_vals(q@[k as int]@)[c] == q@[k as int]@[c]@);
                if c != j as int {
                    assert(q@[k as int]@[c] == prerow[c]);
                    assert(row_vals(prerow)[c] == prerow[c]@);
                }
            }
            assert(row_vals(q@[k as int]@) =~= target);
            assert forall|c: int|
                0 <= c < q@[k as int]@.len() implies (#[trigger] q@[k as int]@[c]).wf() by {
                if c != j as int {
                    assert(q@[k as int]@[c] == prerow[c]);
                }
            }
        }
        k += 1;
    }
    proof {
        assert forall|r: int| 0 <= r < n implies row_vals((#[trigger] q@[r])@) == set_col_n(
            g,
            j as int,
            vn@,
        )[r] by {
            assert(row_vals(q@[r]@) == g[r].update(j as int, vn@[r][0]));
        }
    }
}

/// Zero-filled working rows.
fn zero_rows(rows: usize, cols: usize) -> (m: Vec<Vec<Rat>>)
    ensures
        m@.len() == rows,
        rows_match(m@, zero_grid(rows as nat, cols as nat)),
        forall|r: int| 0 <= r < rows ==> (#[trigger] m@[r])@.len() == cols,
{
    let mut m: Vec<Vec<Rat>> = Vec::new();
    let mut i: usize = 0;
    while i < rows
        invariant
            i <= rows,
            m@.len() == i,
            forall|r: int| 0 <= r < i ==> (#[trigger] m@[r])@.len() == cols,
            forall|r: int|
                0 <= r < i ==> row_vals((#[trigger] m@[r])@) == zero_grid(
                    rows as nat,
                    cols as nat,
                )[r] && row_wf(m@[r]@),
        decreases rows - i,
    {
        let mut row: Vec<Rat> = Vec::new();
        let mut j: usize = 0;
        while j < cols
            invariant
                j <= cols,
                row@.len() == j,
                forall|c: int| 0 <= c < j ==> (#[trigger] row@[c])@ == (0int, 1int)
                    && row@[c].wf(),
            decreases cols - j,
        {
            row.push(Rat::zero());
            j += 1;
        }
        proof {
            assert(row_vals(row@) =~= zero_grid(rows as nat, cols as nat)[i as int]);
        }
        m.push(row);
        i += 1;
    }
    m
}

/// QR decomposition of a tensor with at least as many rows as columns, by
/// modified Gram-Schmidt: each column has its projections onto the
/// previously produced columns removed (the coefficients filling `R`),
/// and is then normalized by its magnitude to become a column of `Q`.
/// `None` when a residual column has zero magnitude (linearly dependent
/// columns) or an exact intermediate is unrepresentable.
#[verifier::loop_isolation(false)]
#[verifier::rlimit(80)]
pub fn qr(tensor: &Tensor) -> (res: Option<(Tensor, Tensor)>)
    requires
        tensor.wf(),
        tensor@.len() >= 1,
    ensures
        opt_pgv(res) == qr_n(tensor@),
        res matches Some(p) ==> p.0.wf() && p.1.wf() && p.0@.len() == tensor@.len() && g_cols(
            p.0@,
        ) == g_cols(tensor@) && p.1@.len() == g_cols(tensor@) && g_cols(p.1@) == g_cols(tensor@),
{
    let r = tensor.data.len();
    let c = tensor.data[0].len();
    proof {
        assert(c == g_cols(tensor@));
        lemma_tensor_rows_match(tensor);
    }
    let ghost a = tensor@;
    let ghost q0 = zero_grid(r as nat, c as nat);
    let ghost rm0 = zero_grid(c as nat, c as nat);
    let mut q = zero_rows(r, c);
    let mut rm = zero_rows(c, c);
    let mut j: usize = 0;
    while j < c
        invariant
            j <= c,
            q@.len() == r,
            rm@.len() == c,
            forall|r2: int| 0 <= r2 < r ==> (#[trigger] q@[r2])@.len() == c,
            forall|r2: int| 0 <= r2 < c ==> (#[trigger] rm@[r2])@.len() == c,
            qr_outer_n(a, q0, rm0, j as nat) is Some,
            rows_match(q@, qr_outer_n(a, q0, rm0, j as nat).unwrap().0),
            rows_match(rm@, qr_outer_n(a, q0, rm0, j as nat).unwrap().1),
        decreases c - j,
    {
        let ghost st = qr_outer_n(a, q0, rm0, j as nat).unwrap();
        proof {
            assert(st.0.len() == r && st.1.len() == c);
            assert forall|r2: int| 0 <= r2 < r implies (#[trigger] st.0[r2]).len() == c by {
                assert(row_vals(q@[r2]@) == st.0[r2]);
            }
            assert forall|r2: int| 0 <= r2 < c implies (#[trigger] st.1[r2]).len() == c by {
                assert(row_vals(rm@[r2]@) == st.1[r2]);
            }
            assert forall|r2: int| 0 <= r2 < a.len() implies (j as int) < (#[trigger] a[r2]).len()
                by {
                assert(a[r2].len() == g_cols(a));
            }
        }
        let mut vt = col_tensor(&tensor.data, j, Ghost(a));
        proof {
            assert(g_cols(vt@) == 1);
        }
        let mut i: usize = 0;
        while i < j
            invariant
                i <= j,
                j < c,
                q@.len() == r,
                rm@.len() == c,
                forall|r2: int| 0 <= r2 < r ==> (#[trigger] q@[r2])@.len() == c,
                forall|r2: int| 0 <= r2 < c ==> (#[trigger] rm@[r2])@.len() == c,
                rows_match(q@, st.0),
                qr_inner_n(st.0, st.1, col_grid(a, j as int), j as int, i as nat) is Some,
                vt@ == qr_inner_n(st.0, st.1, col_grid(a, j as int), j as int, i as nat).unwrap().0,
                rows_match(
                    rm@,
                    qr_inner_n(st.0, st.1, col_grid(a, j as int), j as int, i as nat).unwrap().1,
                ),
                vt.wf(),
                vt@.len() == r,
                g_cols(vt@) == 1,
            decreases j - i,
        {
            let ghost ist = qr_inner_n(st.0, st.1, col_grid(a, j as int), j as int, i as nat).unwrap();
            proof {
                assert forall|r2: int|
                    0 <= r2 < st.0.len() implies (i as int) < (#[trigger] st.0[r2]).len() by {
                    assert(row_vals(q@[r2]@) == st.0[r2]);
                }
            }
            let qi = col_tensor(&q, i, Ghost(st.0));
            proof {
                assert(qi@.len() == r);
                assert(g_cols(qi@) == 1);
            }
            let qit = transpose(&qi);
            proof {
                assert(qit@ == g_transpose(qi@));
                assert(qit@.len() == 1);
                assert(g_cols(qit@) == r);
                assert(!g_empty(qit@) && !g_empty(vt@));
            }
            let prod = match dot(&qit, &vt) {
                Some(p) => p,
                None => {
                    proof {
                        assert(qr_inner_n(
                            st.0,
                            st.1,
                            col_grid(a, j as int),
                            j as int,
                            (i + 1) as nat,
                        ) is None);
                        lemma_qr_inner_none(
                            st.0,
                            st.1,
                            col_grid(a, j as int),
                            j as int,
                            (i + 1) as nat,
                            j as nat,
                        );
                        assert(qr_outer_n(a, q0, rm0, (j + 1) as nat) is None);
                        lemma_qr_outer_none(a, q0, rm0, (j + 1) as nat, c as nat);
                        assert(qr_n(a) is None);
                    }
                    return None;
                },
            };
            proof {
                assert(prod@.len() == 1 && g_cols(prod@) == 1);
            }
            let rij = get(&prod, 0, 0);
            proof {
                assert(rij@ == dot_n(qit@, vt@).unwrap()[0][0]);
                assert forall|r2: int| 0 <= r2 < c implies (#[trigger] ist.1[r2]).len() == c by {
                    assert(row_vals(rm@[r2]@) == ist.1[r2]);
                }
            }
            set_cell(&mut rm, i, j, rij, Ghost(ist.1));
            proof {
                let target = ist.1.update(i as int, ist.1[i as int].update(j as int, rij@));
                assert forall|r2: int| 0 <= r2 < c implies (#[trigger] rm@[r2])@.len() == c by {
                    assert(row_vals(rm@[r2]@) == target[r2]);
                }
            }
            let qis = match scale(&qi, &rij) {
                Some(p) => p,
                None => {
                    proof {
                        assert(qr_inner_n(
                            st.0,
                            st.1,
                            col_grid(a, j as int),
                            j as int,
                            (i + 1) as nat,
                        ) is None);
                        lemma_qr_inner_none(
                            st.0,
                            st.1,
                            col_grid(a, j as int),
                            j as int,
                            (i + 1) as nat,
                            j as nat,
                        );
                        assert(qr_outer_n(a, q0, rm0, (j + 1) as nat) is None);
                        lemma_qr_outer_none(a, q0, rm0, (j + 1) as nat, c as nat);
                        assert(qr_n(a) is None);
                    }
                    return None;
                },
            };
            proof {
                assert(qis@.len() == r && g_cols(qis@) == 1);
            }
            vt = match subtract(&vt, &qis) {
                Some(v) => v,
                None => {
                    proof {
                        assert(qr_inner_n(
                            st.0,
                            st.1,
                            col_grid(a, j as int),
                            j as int,
                            (i + 1) as nat,
                        ) is None);
                        lemma_qr_inner_none(
                            st.0,
                            st.1,
                            col_grid(a, j as int),
                            j as int,
                            (i + 1) as nat,
                            j as nat,
                        );
                        assert(qr_outer_n(a, q0, rm0, (j + 1) as nat) is None);
                        lemma_qr_outer_none(a, q0, rm0, (j + 1) as nat, c as nat);
                        assert(qr_n(a) is None);
                    }
                    return None;
                },
            };
            proof {
                assert(qr_inner_n(
                    st.0,
                    st.1,
                    col_grid(a, j as int),
                    j as int,
                    (i + 1) as nat,
                ) is Some);
            }
            i += 1;
        }
        let ghost vr = qr_inner_n(st.0, st.1, col_grid(a, j as int), j as int, j as nat).unwrap();
        let rjj = match magnitude(&vt) {
            Some(m) => m,
            None => {
                proof {
                    assert(qr_outer_n(a, q0, rm0, (j + 1) as nat) is None);
                    lemma_qr_outer_none(a, q0, rm0, (j + 1) as nat, c as nat);
                    assert(qr_n(a) is None);
                }
                return None;
            },
        };
        proof {
            assert forall|r2: int| 0 <= r2 < c implies (#[trigger] vr.1[r2]).len() == c by {
                assert(row_vals(rm@[r2]@) == vr.1[r2]);
            }
        }
        set_cell(&mut rm, j, j, rjj, Ghost(vr.1));
        proof {
            let target = vr.1.update(j as int, vr.1[j as int].update(j as int, rjj@));
            assert forall|r2: int| 0 <= r2 < c implies (#[trigger] rm@[r2])@.len() == c by {
                assert(row_vals(rm@[r2]@) == target[r2]);
            }
        }
        let vn = match scale_div(&vt, &rjj) {
            Some(v) => v,
            None => {
                proof {
                    assert(qr_outer_n(a, q0, rm0, (j + 1) as nat) is None);
                    lemma_qr_outer_none(a, q0, rm0, (j + 1) as nat, c as nat);
                    assert(qr_n(a) is None);
                }
                return None;
            },
        };
        proof {
            assert(vn@.len() == r && g_cols(vn@) == 1);
            assert forall|r2: int| 0 <= r2 < vn@.len() implies (#[trigger] vn@[r2]).len() == 1 by {
                assert(vn@[r2].len() == g_cols(vn@));
            }
            assert forall|r2: int| 0 <= r2 < st.0.len() implies (j as int) < (
            #[trigger] st.0[r2]).len() by {
                assert(row_vals(q@[r2]@) == st.0[r2]);
            }
        }
        set_col(&mut q, j, &vn, Ghost(st.0));
        proof {
            assert(qr_outer_n(a, q0, rm0, (j + 1) as nat) == Some(
                (set_col_n(st.0, j as int, vn@), vr.1.update(j as int, vr.1[j as int].update(j as int, rjj@))),
            ));
            assert forall|r2: int| 0 <= r2 < r implies (#[trigger] q@[r2])@.len() == c by {
                assert(row_vals(q@[r2]@) == set_col_n(st.0, j as int, vn@)[r2]);
            }
        }
        j += 1;
    }
    let ghost fin = qr_outer_n(a, q0, rm0, c as nat).unwrap();
    let qt = Tensor { data: q };
    let rt = Tensor { data: rm };
    proof {
        lemma_rows_match_view(&qt, fin.0);
        lemma_rows_match_view(&rt, fin.1);
        assert forall|r2: int, c2: int|
            0 <= r2 < qt@.len() && 0 <= c2 < qt@[r2].len() implies q_in_i64(
            #[trigger] qt@[r2][c2],
        ) by {
            assert(row_wf(qt.data@[r2]@));
            assert(qt@[r2][c2] == qt.data@[r2]@[c2]@);
            assert(qt.data@[r2]@[c2].wf());
        }
        assert forall|r2: int, c2: int|
            0 <= r2 < rt@.len() && 0 <= c2 < rt@[r2].len() implies q_in_i64(
            #[trigger] rt@[r2][c2],
        ) by {
            assert(row_wf(rt.data@[r2]@));
            assert(rt@[r2][c2] == rt.data@[r2]@[c2]@);
            assert(rt.data@[r2]@[c2].wf());
        }
        assert(qt.wf());
        assert(rt.wf());
        assert(g_cols(qt@) == c && g_cols(rt@) == c);
    }
    Some((qt, rt))
}

/// Mirror of `least_norm`: the minimum-norm solution of an
/// under-determined system through the QR decomposition of the transpose.
pub open spec fn least_norm_n(a: Grid, b: Grid) -> Option<Grid> {
    match qr_n(tr_x(a)) {
        None => None,
        Some(p) => match inv_n(p.1) {
            None => None,
            Some(ri) => match dot_n(p.0, tr_x(ri)) {
                None => None,
                Some(qrt) => match dot_n(qrt, tr_x(b)) {
                    None => None,
                    Some(y) => Some(seq![tr_x(y)[0]]),
                },
            },
        },
    }
}

/// The minimum-Euclidean-norm solution of the under-determined system
/// `a * x = b`, computed as `Q * R^-T * b` from the QR decomposition of
/// the transpose of `a`.  `b` is a 1xN row of observations; the result is
/// a 1xN row of unknowns.
pub fn least_norm(tensor: &Tensor, vector: &Tensor) -> (res: Option<Tensor>)
    requires
        tensor.wf(),
        vector.wf(),
        tensor@.len() >= 2,
        g_cols(tensor@) >= 1,
        vector@.len() == 1,
        g_cols(vector@) == tensor@.len(),
    ensures
        opt_gv(res) == least_norm_n(tensor@, vector@),
        res matches Some(t) ==> t.wf() && t@.len() == 1 && g_cols(t@) == g_cols(tensor@),
{
    let m = tensor.data.len();
    let t1 = transpose(tensor);
    proof {
        assert(t1@ == g_transpose(tensor@));
        assert(t1@.len() == g_cols(tensor@));
        assert(g_cols(t1@) == tensor@.len());
    }
    let qr_pair = match qr(&t1) {
        Some(p) => p,
        None => {
            return None;
        },
    };
    let (qq, rr) = qr_pair;
    let ri = match inverse(&rr) {
        Some(t) => t,
        None => {
            return None;
        },
    };
    let rit = transpose(&ri);
    proof {
        assert(rit@ == g_transpose(ri@) && rit@ == tr_x(ri@));
        assert(rit@.len() == tensor@.len() && g_cols(rit@) == tensor@.len());
    }
    let qrt = match dot(&qq, &rit) {
        Some(t) => t,
        None => {
            return None;
        },
    };
    let bt = transpose(vector);
    proof {
        assert(bt@ == g_transpose(vector@) && bt@ == tr_x(vector@));
        assert(bt@.len() == tensor@.len() && g_cols(bt@) == 1);
    }
    let y = match dot(&qrt, &bt) {
        Some(t) => t,
        None => {
            return None;
        },
    };
    let yt = transpose(&y);
    proof {
        assert(yt@ == g_transpose(y@) && yt@ == tr_x(y@));
        assert(yt@.len() == 1 && g_cols(yt@) == g_cols(tensor@));
        lemma_tensor_rows_match(&yt);
        assert(row_vals(yt.data@[0]@) == yt@[0]);
    }
    let row = clone_row(&yt.data[0]);
    let mut data: Vec<Vec<Rat>> = Vec::new();
    data.push(row);
    let out = Tensor { data };
    proof {
        assert forall|c2: int| 0 <= c2 < out@[0].len() implies out@[0][c2] == yt@[0][c2] by {
            assert(out@[0][c2] == out.data@[0]@[c2]@);
            assert(row_vals(yt.data@[0]@)[c2] == yt.data@[0]@[c2]@);
        }
        assert(out@[0] =~= yt@[0]);
        assert(out@ =~~= seq![tr_x(y@)[0]]);
        assert(g_cols(out@) == g_cols(tensor@));
        assert forall|r2: int, c2: int|
            0 <= r2 < out@.len() && 0 <= c2 < out@[r2].len() implies q_in_i64(
            #[trigger] out@[r2][c2],
        ) by {
            assert(out@[r2][c2] == yt@[0][c2]);
            assert(q_in_i64(yt@[0][c2]));
        }
    }
    Some(out)
}

/// Mirror of `least_squares`: least-norm for under-determined systems,
/// and otherwise the normal equations solved by Gaussian elimination.
pub open spec fn least_squares_n(a: Grid, b: Grid) -> Option<Grid> {
    if a.len() < g_cols(a) {
        least_norm_n(a, b)
    } else {
        match dot_n(tr_x(a), a) {
            None => None,
            Some(jtj) => match dot_n(tr_x(a), tr_x(b)) {
                None => None,
                Some(jtr) => solve_n(jtj, jtr),
            },
        }
    }
}

/// Least-squares solution of `a * x = b`.  An under-determined system
/// (fewer rows than columns) is delegated to `least_norm`; otherwise the
/// normal equations `(a^T a) x = a^T b` are formed and solved.  `b` is a
/// 1xN row of observations; the result is a 1xN row of unknowns.
pub fn least_squares(tensor: &Tensor, vector: &Tensor) -> (res: Option<Tensor>)
    requires
        tensor.wf(),
        vector.wf(),
        tensor@.len() >= 1,
        g_cols(tensor@) >= 1,
        vector@.len() == 1,
        g_cols(vector@) == tensor@.len(),
        tensor@.len() < g_cols(tensor@) ==> tensor@.len() >= 2,
    ensures
        opt_gv(res) == least_squares_n(tensor@, vector@),
        res matches Some(t) ==> t.wf() && t@.len() == 1 && g_cols(t@) == g_cols(tensor@),
{
    let rows_n = tensor.data.len();
    let cols_n = tensor.data[0].len();
    if rows_n < cols_n {
        return least_norm(tensor, vector);
    }
    let jt = transpose(tensor);
    proof {
        assert(jt@ == g_transpose(tensor@) && jt@ == tr_x(tensor@));
        assert(jt@.len() == g_cols(tensor@) && g_cols(jt@) == tensor@.len());
    }
    let jtj = match dot(&jt, tensor) {
        Some(t) => t,
        None => {
            return None;
        },
    };
    let bt = transpose(vector);
    proof {
        assert(bt@ == g_transpose(vector@) && bt@ == tr_x(vector@));
        assert(bt@.len() == tensor@.len() && g_cols(bt@) == 1);
    }
    let jtr = match dot(&jt, &bt) {
        Some(t) => t,
        None => {
            return None;
        },
    };
    proof {
        assert(jtj@.len() == g_cols(tensor@) && g_cols(jtj@) == g_cols(tensor@));
        assert(jtr@.len() == g_cols(tensor@) && g_cols(jtr@) == 1);
    }
    solve_linear(&jtj, &jtr)
}

} // verus!
