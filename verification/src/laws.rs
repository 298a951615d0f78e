//! General laws of the engine, proved once over the tensor model.

use vstd::prelude::*;

verus! {

use crate::linalg::Grid;
use crate::linalg::det_n;
use crate::linalg::det_sum_n;
use crate::linalg::dot_cell_n;
use crate::linalg::g_minor;
use crate::linalg::dot_n;
use crate::linalg::dot_ok;
use crate::linalg::dot_val;
use crate::linalg::g_cols;
use crate::linalg::g_empty;
use crate::linalg::g_transpose;
use crate::linalg::g_wf;
use crate::matrix::identity_grid;
use crate::rat::add_n;
use crate::rat::lemma_norm_int;
use crate::rat::mul_n;
use crate::rat::q_add;
use crate::rat::sub_n;
use crate::rat::lemma_norm_eqv;
use crate::rat::lemma_norm_small;
use crate::rat::lemma_norm_valid;
use crate::rat::q_eqv;
use crate::rat::q_in_i64;
use crate::rat::q_mul;
use crate::rat::q_norm;
use crate::rat::q_norm_opt;

/// Law: transposing twice gives back the original tensor exactly.  (The
/// single degenerate exception is a tensor with rows but no columns,
/// which transposes to the canonical empty tensor.)
pub proof fn lemma_transpose_involution(g: Grid)
    requires
        g_wf(g),
        g.len() >= 1,
        g_cols(g) >= 1,
    ensures
        g_transpose(g_transpose(g)) == g,
{
    let t = g_transpose(g);
    assert(t.len() == g_cols(g));
    assert(t[0].len() == g.len());
    assert(g_cols(t) == g.len());
    let tt = g_transpose(t);
    assert forall|i: int| 0 <= i < g.len() implies tt[i] =~= g[i] by {
        assert(g[i].len() == g_cols(g));
        assert forall|j: int| 0 <= j < g_cols(g) implies tt[i][j] == g[i][j] by {
            assert(tt[i][j] == t[j][i]);
        }
    }
    assert(tt =~~= g);
}

/// Multiplying a stored scalar by one yields its lowest-terms form, and
/// by zero yields exact zero.
proof fn lemma_cell_times_identity(x: (int, int))
    requires
        q_in_i64(x),
    ensures
        mul_n(x, (1int, 1int)) == Some(q_norm(x)),
        q_eqv(q_norm(x), x),
        mul_n(x, (0int, 1int)) == Some((0int, 1int)),
        q_in_i64(q_norm(x)),
{
    assert(q_mul(x, (1int, 1int)) == (x.0, x.1));
    lemma_norm_small(x);
    lemma_norm_eqv(x);
    let z = q_mul(x, (0int, 1int));
    assert(z == (0int, x.1));
    lemma_norm_small(z);
    lemma_norm_eqv(z);
    lemma_norm_valid(z);
    let nz = q_norm(z);
    assert(q_eqv(nz, z));
    assert(nz.0 * x.1 == 0);
    assert(nz.0 == 0) by (nonlinear_arith)
        requires
            nz.0 * x.1 == 0,
            x.1 >= 1,
    ;
    assert(nz.1 == 1) by {
        let na = vstd::math::abs(0);
        let da = vstd::math::abs(z.1);
        crate::rat::lemma_gcd_divides(na, da);
        assert(crate::rat::gcd(0, da) == crate::rat::gcd(da, 0));
        assert(crate::rat::gcd(da, 0) == da);
        assert(nz.1 == da as int / da as int);
        vstd::arithmetic::div_mod::lemma_div_by_self(da as int);
    }
}

/// Adding a stored scalar to exact zero yields its lowest-terms form.
proof fn lemma_cell_plus_zero(s: (int, int), p: (int, int))
    requires
        q_in_i64(s),
        q_in_i64(p),
    ensures
        add_n((0int, 1int), p) == Some(q_norm(p)),
        add_n(s, (0int, 1int)) == Some(q_norm(s)),
        q_eqv(q_norm(p), p),
        q_eqv(q_norm(s), s),
        q_in_i64(q_norm(p)),
        q_in_i64(q_norm(s)),
{
    assert(crate::rat::q_add((0int, 1int), p) == (p.0, p.1));
    assert(crate::rat::q_add(s, (0int, 1int)) == (s.0, s.1));
    lemma_norm_small(p);
    lemma_norm_eqv(p);
    lemma_norm_small(s);
    lemma_norm_eqv(s);
}

/// The running sum for a product cell against the identity: exactly zero
/// until the matching column is passed, and equivalent to the original
/// entry afterwards.
proof fn lemma_dot_identity_cell(a: Grid, i: int, j: int, k: nat)
    requires
        g_wf(a),
        a.len() >= 1,
        g_cols(a) >= 1,
        0 <= i < a.len(),
        0 <= j < g_cols(a),
        k <= g_cols(a),
    ensures
        dot_cell_n(a, identity_grid(g_cols(a)), i, j, k) matches Some(v) && q_in_i64(v) && (
        j < k ==> q_eqv(v, a[i][j])) && (j >= k ==> v == (0int, 1int)),
    decreases k,
{
    let id = identity_grid(g_cols(a));
    if k > 0 {
        lemma_dot_identity_cell(a, i, j, (k - 1) as nat);
        let s = dot_cell_n(a, id, i, j, (k - 1) as nat).unwrap();
        let x = a[i][k - 1];
        assert(q_in_i64(x));
        lemma_cell_times_identity(x);
        if k - 1 == j {
            // The matching column contributes the entry itself.
            assert(id[k - 1][j] == (1int, 1int));
            assert(mul_n(x, (1int, 1int)) == Some(q_norm(x)));
            assert(s == (0int, 1int));
            lemma_cell_plus_zero(s, q_norm(x));
            let v = q_norm(q_norm(x));
            assert(q_eqv(v, q_norm(x)) && q_eqv(q_norm(x), x));
            assert(q_eqv(v, x)) by (nonlinear_arith)
                requires
                    q_eqv(v, q_norm(x)),
                    q_eqv(q_norm(x), x),
                    v.1 >= 1,
                    q_norm(x).1 >= 1,
                    x.1 >= 1,
                    q_eqv(v, q_norm(x)) == (v.0 * q_norm(x).1 == q_norm(x).0 * v.1),
                    q_eqv(q_norm(x), x) == (q_norm(x).0 * x.1 == x.0 * q_norm(x).1),
                    q_eqv(v, x) == (v.0 * x.1 == x.0 * v.1),
            ;
        } else {
            // Other columns contribute exact zero.
            assert(id[k - 1][j] == (0int, 1int));
            assert(mul_n(x, (0int, 1int)) == Some((0int, 1int)));
            lemma_cell_plus_zero(s, (0int, 1int));
            if j < k - 1 {
                let v = q_norm(s);
                assert(q_eqv(v, s));
                assert(q_eqv(v, a[i][j])) by (nonlinear_arith)
                    requires
                        q_eqv(v, s),
                        q_eqv(s, a[i][j]),
                        v.1 >= 1,
                        s.1 >= 1,
                        a[i][j].1 >= 1,
                        q_eqv(v, s) == (v.0 * s.1 == s.0 * v.1),
                        q_eqv(s, a[i][j]) == (s.0 * a[i][j].1 == a[i][j].0 * s.1),
                        q_eqv(v, a[i][j]) == (v.0 * a[i][j].1 == a[i][j].0 * v.1),
                ;
            } else {
                assert(s == (0int, 1int));
                assert(crate::rat::q_add(s, (0int, 1int)) == (0int, 1int));
                assert(q_norm_opt((0int, 1int)) == Some((0int, 1int))) by {
                    assert(crate::rat::gcd(0, 1) == crate::rat::gcd(1, 0));
                    assert(crate::rat::gcd(1, 0) == 1);
                }
            }
        }
    }
}

/// Law: multiplying by the identity on the right leaves a tensor
/// unchanged; the product exists and each cell denotes the original
/// entry.
pub proof fn lemma_dot_identity(a: Grid)
    requires
        g_wf(a),
        a.len() >= 1,
        g_cols(a) >= 1,
    ensures
        dot_n(a, identity_grid(g_cols(a))) is Some,
        dot_n(a, identity_grid(g_cols(a))).unwrap().len() == a.len(),
        forall|i: int|
            0 <= i < a.len() ==> (#[trigger] dot_n(a, identity_grid(g_cols(a))).unwrap()[i]).len()
                == g_cols(a),
        forall|i: int, j: int|
            0 <= i < a.len() && 0 <= j < g_cols(a) ==> q_eqv(
                #[trigger] dot_n(a, identity_grid(g_cols(a))).unwrap()[i][j],
                a[i][j],
            ),
{
    let id = identity_grid(g_cols(a));
    assert(id.len() == g_cols(a));
    assert(g_cols(id) == g_cols(a));
    assert(!g_empty(a) && !g_empty(id));
    assert forall|i: int, j: int|
        0 <= i < a.len() && 0 <= j < g_cols(id) implies (#[trigger] dot_cell_n(
        a,
        id,
        i,
        j,
        g_cols(a),
    )) is Some by {
        lemma_dot_identity_cell(a, i, j, g_cols(a));
    }
    assert(dot_ok(a, id));
    assert(dot_n(a, id) == Some(dot_val(a, id)));
    assert forall|i: int, j: int|
        0 <= i < a.len() && 0 <= j < g_cols(a) implies q_eqv(
        #[trigger] dot_n(a, id).unwrap()[i][j],
        a[i][j],
    ) by {
        lemma_dot_identity_cell(a, i, j, g_cols(a));
        assert(dot_val(a, id)[i][j] == dot_cell_n(a, id, i, j, g_cols(a)).unwrap());
    }
}

// ---------------------------------------------------------------------------
// The determinant of the identity.
// ---------------------------------------------------------------------------

/// A grid entry that is exactly zero or exactly one.
pub open spec fn unit_entry(x: (int, int)) -> bool {
    x == (0int, 1int) || x == (1int, 1int)
}

/// A square grid of exact zeros and ones, at most one 1 per row, with the
/// ones in strictly increasing column order down the rows.  The identity
/// is such a grid, and the class is closed under first-row minors.
pub open spec fn mono_unit(g: Grid) -> bool {
    &&& g.len() == g_cols(g)
    &&& forall|i: int| 0 <= i < g.len() ==> (#[trigger] g[i]).len() == g.len()
    &&& forall|i: int, j: int|
        0 <= i < g.len() && 0 <= j < g.len() ==> unit_entry(#[trigger] g[i][j])
    &&& forall|i: int, j: int, j2: int|
        #![trigger g[i][j], g[i][j2]]
        0 <= i < g.len() && 0 <= j < j2 < g.len() && g[i][j] == (1int, 1int) ==> g[i][j2] != (
        1int,
        1int,
    )
    &&& forall|i: int, i2: int, j: int, j2: int|
        #![trigger g[i][j], g[i2][j2]]
        0 <= i < i2 < g.len() && 0 <= j < g.len() && 0 <= j2 < g.len() && g[i][j] == (1int, 1int)
            && g[i2][j2] == (1int, 1int) ==> j < j2
}

proof fn lemma_identity_mono_unit(n: nat)
    ensures
        mono_unit(identity_grid(n)),
{
    let g = identity_grid(n);
    assert(g.len() == n);
    if n > 0 {
        assert(g[0].len() == n);
    }
    assert forall|i: int| 0 <= i < g.len() implies (#[trigger] g[i]).len() == g.len() by {}
    assert forall|i: int, j: int|
        0 <= i < g.len() && 0 <= j < g.len() implies unit_entry(#[trigger] g[i][j]) by {}
}

/// Deleting the first row and any column keeps a grid in the class.
proof fn lemma_minor_mono_unit(g: Grid, c: int)
    requires
        mono_unit(g),
        g.len() >= 1,
        0 <= c < g.len(),
    ensures
        mono_unit(g_minor(g, 0, c)),
        g_minor(g, 0, c).len() == g.len() - 1,
{
    let m = g_minor(g, 0, c);
    let n = g.len() as int;
    assert(m.len() == n - 1);
    assert forall|i: int| 0 <= i < m.len() implies (#[trigger] m[i]).len() == m.len() by {
        assert(g_cols(g) == n);
    }
    assert(g_cols(m) == n - 1) by {
        if n >= 2 {
            assert(m[0].len() == n - 1);
        }
    }
    assert forall|i: int, j: int|
        0 <= i < m.len() && 0 <= j < m.len() implies unit_entry(#[trigger] m[i][j]) by {
        assert(m[i][j] == g[i + 1][if j < c {
            j
        } else {
            j + 1
        }]);
    }
    assert forall|i: int, j: int, j2: int|
        #![trigger m[i][j], m[i][j2]]
        0 <= i < m.len() && 0 <= j < j2 < m.len() && m[i][j] == (1int, 1int) implies m[i][j2] != (
        1int,
        1int,
    ) by {
        let sj = if j < c {
            j
        } else {
            j + 1
        };
        let sj2 = if j2 < c {
            j2
        } else {
            j2 + 1
        };
        assert(m[i][j] == g[i + 1][sj]);
        assert(m[i][j2] == g[i + 1][sj2]);
        assert(sj < sj2);
    }
    assert forall|i: int, i2: int, j: int, j2: int|
        #![trigger m[i][j], m[i2][j2]]
        0 <= i < i2 < m.len() && 0 <= j < m.len() && 0 <= j2 < m.len() && m[i][j] == (1int, 1int)
            && m[i2][j2] == (1int, 1int) implies j < j2 by {
        let sj = if j < c {
            j
        } else {
            j + 1
        };
        let sj2 = if j2 < c {
            j2
        } else {
            j2 + 1
        };
        assert(m[i][j] == g[i + 1][sj]);
        assert(m[i2][j2] == g[i2 + 1][sj2]);
        assert(sj < sj2);
        if j >= j2 {
            if j == j2 {
                assert(sj == sj2);
            } else {
                assert(sj > sj2);
            }
        }
    }
}

/// The first minor of the identity is the smaller identity.
proof fn lemma_minor_of_identity(n: nat)
    requires
        n >= 1,
    ensures
        g_minor(identity_grid(n), 0, 0) == identity_grid((n - 1) as nat),
{
    let m = g_minor(identity_grid(n), 0, 0);
    let id = identity_grid((n - 1) as nat);
    assert forall|i: int| 0 <= i < m.len() implies m[i] =~= id[i] by {
        assert forall|j: int| 0 <= j < id[i].len() implies m[i][j] == id[i][j] by {
            assert(m[i][j] == identity_grid(n)[i + 1][j + 1]);
        }
    }
    assert(m =~~= id);
}

/// A class grid whose first entry is one and whose first minor is the
/// identity is the identity itself.
proof fn lemma_rebuild_identity(g: Grid)
    requires
        mono_unit(g),
        g.len() >= 2,
        g[0][0] == (1int, 1int),
        g_minor(g, 0, 0) == identity_grid((g.len() - 1) as nat),
    ensures
        g == identity_grid(g.len()),
{
    let n = g.len() as int;
    let m = g_minor(g, 0, 0);
    let id = identity_grid(g.len());
    assert forall|i: int| 0 <= i < n implies g[i] =~= id[i] by {
        assert forall|j: int| 0 <= j < n implies g[i][j] == id[i][j] by {
            if i == 0 {
                if j > 0 {
                    assert(g[0][j] != (1int, 1int));
                    assert(unit_entry(g[0][j]));
                }
            } else {
                if j == 0 {
                    // A second one in column zero would break the order.
                    if g[i][0] == (1int, 1int) {
                        assert(g[0][0] == (1int, 1int) && g[i][0] == (1int, 1int));
                        assert(false);
                    }
                    assert(unit_entry(g[i][0]));
                } else {
                    assert(m[i - 1][j - 1] == g[i][j]);
                    assert(m[i - 1][j - 1] == identity_grid((g.len() - 1) as nat)[i - 1][j - 1]);
                }
            }
        }
    }
    assert(g =~~= id);
}

/// A one in the first row past the first column forces the first minor
/// away from the identity.
proof fn lemma_shifted_minor_not_identity(g: Grid, t: int)
    requires
        mono_unit(g),
        g.len() >= 2,
        1 <= t < g.len(),
        g[0][t] == (1int, 1int),
    ensures
        g_minor(g, 0, t) != identity_grid((g.len() - 1) as nat),
{
    let m = g_minor(g, 0, t);
    let id = identity_grid((g.len() - 1) as nat);
    if m == id {
        assert(id[0][0] == (1int, 1int));
        assert(m[0][0] == g[1][0]);
        assert(g[0][t] == (1int, 1int) && g[1][0] == (1int, 1int));
        assert(t < 0);
        assert(false);
    }
}

/// The contribution of column `t` to the expansion of a class grid's
/// determinant: a signed one exactly when the entry is one and the minor
/// is the identity.
pub open spec fn unit_term(g: Grid, t: int) -> int {
    if g[0][t] == (1int, 1int) && g_minor(g, 0, t) == identity_grid((g.len() - 1) as nat) {
        if t % 2 == 0 {
            1
        } else {
            -1
        }
    } else {
        0
    }
}

pub open spec fn unit_partial(g: Grid, c: nat) -> int
    decreases c,
{
    if c == 0 {
        0
    } else {
        unit_partial(g, (c - 1) as nat) + unit_term(g, c - 1)
    }
}

/// Products of exact zero-or-one entries, by case split.
proof fn lemma_unit_mul(x: (int, int), y: (int, int))
    requires
        unit_entry(x),
        unit_entry(y),
    ensures
        q_mul(x, y) == (if x == (1int, 1int) && y == (1int, 1int) {
            (1int, 1int)
        } else {
            (0int, 1int)
        }),
{
    if x == (1int, 1int) {
        if y == (1int, 1int) {
            assert(q_mul(x, y) == (1int, 1int));
        } else {
            assert(q_mul(x, y) == (0int, 1int));
        }
    } else {
        if y == (1int, 1int) {
            assert(q_mul(x, y) == (0int, 1int));
        } else {
            assert(q_mul(x, y) == (0int, 1int));
        }
    }
}

/// The mirror arithmetic on exact whole numbers stays exact.
proof fn lemma_int_pair_step(s: int, x: (int, int), d: int)
    requires
        -1 <= s <= 1,
        unit_entry(x),
        0 <= d <= 1,
    ensures
        mul_n(x, (d, 1int)) == Some(((if x == (1int, 1int) {
            d
        } else {
            0int
        }), 1int)),
        add_n((s, 1int), (0int, 1int)) == Some((s, 1int)),
        add_n((s, 1int), (1int, 1int)) == Some(((s + 1), 1int)),
        add_n((s, 1int), (-1int, 1int)) == Some(((s - 1), 1int)),
{
    lemma_norm_int(0);
    lemma_norm_int(1);
    lemma_norm_int(d);
    lemma_norm_int(s);
    lemma_norm_int(s + 1);
    lemma_norm_int(s - 1);
    if x == (1int, 1int) {
        assert(crate::rat::q_mul(x, (d, 1int)) == (d, 1int));
    } else {
        assert(crate::rat::q_mul(x, (d, 1int)) == (0int, 1int));
    }
    assert(q_add((s, 1int), (0int, 1int)) == (s, 1int));
    assert(q_add((s, 1int), (1int, 1int)) == ((s + 1), 1int));
    assert(q_add((s, 1int), (-1int, 1int)) == ((s - 1), 1int));
    crate::rat::lemma_norm_small((d, 1int));
    crate::rat::lemma_norm_small((s, 1int));
    crate::rat::lemma_norm_small(((s + 1), 1int));
    crate::rat::lemma_norm_small(((s - 1), 1int));
}

/// The determinant of a class grid is one exactly on the identity, and
/// zero otherwise; in particular it is always representable.
proof fn lemma_mono_unit_det(g: Grid)
    requires
        mono_unit(g),
        g.len() >= 1,
    ensures
        det_n(g) == Some(((if g == identity_grid(g.len()) {
            1int
        } else {
            0int
        }), 1int)),
    decreases g.len(), g.len() + 1,
{
    let n = g.len() as int;
    let id = identity_grid(g.len());
    if n == 1 {
        assert(det_n(g) == Some(g[0][0]));
        if g[0][0] == (1int, 1int) {
            assert(g[0] =~= id[0]);
            assert(g =~~= id);
        } else {
            assert(g[0][0] == (0int, 1int));
            if g == id {
                assert(g[0][0] == (1int, 1int));
            }
        }
    } else if n == 2 {
        lemma_norm_int(0);
        lemma_norm_int(1);
        let a = g[0][0];
        let b = g[0][1];
        let c = g[1][0];
        let d = g[1][1];
        assert(unit_entry(a) && unit_entry(b) && unit_entry(c) && unit_entry(d));
        // The anti-diagonal cannot hold two ones, by the ordering.
        if b == (1int, 1int) && c == (1int, 1int) {
            assert(false);
        }
        // A one beside another one in a row is excluded.
        if a == (1int, 1int) && b == (1int, 1int) {
            assert(false);
        }
        let p1v: int = if a == (1int, 1int) && d == (1int, 1int) {
            1
        } else {
            0
        };
        assert(mul_n(a, d) == Some((p1v, 1int))) by {
            lemma_unit_mul(a, d);
            lemma_norm_int(p1v);
            crate::rat::lemma_norm_small((p1v, 1int));
        }
        assert(mul_n(b, c) == Some((0int, 1int))) by {
            lemma_unit_mul(b, c);
            crate::rat::lemma_norm_small((0int, 1int));
        }
        assert(sub_n((p1v, 1int), (0int, 1int)) == Some((p1v, 1int))) by {
            assert(crate::rat::q_sub((p1v, 1int), (0int, 1int)).0 == p1v * 1 - 0 * 1);
            assert(crate::rat::q_sub((p1v, 1int), (0int, 1int)).1 == 1 * 1);
            assert(crate::rat::q_sub((p1v, 1int), (0int, 1int)) == (p1v, 1int));
            lemma_norm_int(p1v);
            crate::rat::lemma_norm_small((p1v, 1int));
        }
        assert(det_n(g) == Some((p1v, 1int)));
        if p1v == 1 {
            assert(b == (0int, 1int) && c == (0int, 1int));
            assert(g[0] =~= id[0]);
            assert(g[1] =~= id[1]);
            assert(g =~~= id);
        } else {
            if g == id {
                assert(g[0][0] == (1int, 1int) && g[1][1] == (1int, 1int));
            }
        }
    } else {
        lemma_mono_unit_sum(g, g.len());
        assert(det_sum_n(g, g.len()) == Some((unit_partial(g, g.len()), 1int)));
        lemma_partial_is_indicator(g);
        assert(g_cols(g) == g.len());
    }
}

/// Partial sums of the expansion are the partial indicator sums, and stay
/// between minus one and one.
proof fn lemma_mono_unit_sum(g: Grid, c: nat)
    requires
        mono_unit(g),
        g.len() >= 3,
        c <= g.len(),
    ensures
        det_sum_n(g, c) == Some((unit_partial(g, c), 1int)),
        -1 <= unit_partial(g, c) <= 1,
        unit_partial(g, c) != 0 ==> exists|t: int| #![trigger g[0][t]]
            0 <= t < c && g[0][t] == (1int, 1int),
    decreases g.len(), c,
{
    if c == 0 {
        assert(det_sum_n(g, 0) == Some((0int, 1int)));
    } else {
        lemma_mono_unit_sum(g, (c - 1) as nat);
        let s = unit_partial(g, (c - 1) as nat);
        let t = c - 1;
        lemma_minor_mono_unit(g, t as int);
        let m = g_minor(g, 0, t as int);
        lemma_mono_unit_det(m);
        let d: int = if m == identity_grid(m.len()) {
            1
        } else {
            0
        };
        assert(m.len() == (g.len() - 1) as nat);
        lemma_int_pair_step(s, g[0][t as int], d);
        assert(unit_entry(g[0][t as int]));
        if g[0][t as int] == (1int, 1int) {
            assert(mul_n(g[0][t as int], (d, 1int)) == Some((d, 1int)));
            if unit_partial(g, c) != 0 {
                if unit_term(g, t as int) != 0 {
                    assert(g[0][t as int] == (1int, 1int));
                }
            }
            // Any earlier one in row zero is excluded, so the running sum
            // was still zero.
            if s != 0 {
                let t0 = choose|t0: int| #![trigger g[0][t0]] 0 <= t0 < c - 1 && g[0][t0] == (
                    1int,
                    1int,
                );
                assert(g[0][t0] == (1int, 1int) && g[0][t as int] == (1int, 1int));
                assert(false);
            }
            assert(s == 0);
            if t as int % 2 == 0 {
                assert(add_n((s, 1int), (d, 1int)) == Some(((s + d), 1int))) by {
                    if d == 0 {
                        assert(add_n((s, 1int), (0int, 1int)) == Some((s, 1int)));
                    } else {
                        assert(add_n((s, 1int), (1int, 1int)) == Some(((s + 1), 1int)));
                    }
                }
                assert(det_sum_n(g, c) == Some(((s + d), 1int)));
                assert(unit_term(g, t as int) == d);
            } else {
                assert(crate::rat::q_neg((d, 1int)) == ((-d), 1int));
                assert(add_n((s, 1int), ((-d), 1int)) == Some(((s - d), 1int))) by {
                    if d == 0 {
                        assert(add_n((s, 1int), (0int, 1int)) == Some((s, 1int)));
                    } else {
                        assert(add_n((s, 1int), (-1int, 1int)) == Some(((s - 1), 1int)));
                    }
                }
                assert(det_sum_n(g, c) == Some(((s - d), 1int)));
                assert(unit_term(g, t as int) == -d);
            }
        } else {
            assert(mul_n(g[0][t as int], (d, 1int)) == Some((0int, 1int)));
            assert(crate::rat::q_neg((0int, 1int)) == (0int, 1int));
            assert(add_n((s, 1int), (0int, 1int)) == Some((s, 1int)));
            assert(det_sum_n(g, c) == Some((s, 1int)));
            assert(unit_term(g, t as int) == 0);
        }
    }
}

/// The full expansion counts one exactly on the identity.
proof fn lemma_partial_is_indicator(g: Grid)
    requires
        mono_unit(g),
        g.len() >= 2,
    ensures
        unit_partial(g, g.len()) == (if g == identity_grid(g.len()) {
            1int
        } else {
            0int
        }),
{
    let n = g.len();
    if g == identity_grid(n) {
        lemma_identity_mono_unit(n);
        lemma_minor_of_identity(n);
        assert(unit_term(g, 0) == 1);
        lemma_identity_partials(g, n);
    } else {
        assert forall|t: int| 0 <= t < n implies (#[trigger] unit_term(g, t)) == 0 by {
            if g[0][t] == (1int, 1int) {
                if t == 0 {
                    if g_minor(g, 0, 0) == identity_grid((n - 1) as nat) {
                        lemma_rebuild_identity(g);
                        assert(false);
                    }
                } else {
                    lemma_shifted_minor_not_identity(g, t);
                }
            }
        }
        lemma_zero_partials(g, n);
    }
}

/// On the identity, the first term is one and every later term is zero.
proof fn lemma_identity_partials(g: Grid, c: nat)
    requires
        g.len() >= 2,
        g == identity_grid(g.len()),
        unit_term(g, 0) == 1,
        1 <= c <= g.len(),
    ensures
        unit_partial(g, c) == 1,
    decreases c,
{
    if c == 1 {
        assert(unit_partial(g, 1) == unit_partial(g, 0) + unit_term(g, 0));
    } else {
        lemma_identity_partials(g, (c - 1) as nat);
        assert(g[0][c - 1] == (0int, 1int));
        assert(unit_term(g, c - 1) == 0);
    }
}

proof fn lemma_zero_partials(g: Grid, c: nat)
    requires
        c <= g.len(),
        forall|t: int| 0 <= t < g.len() ==> (#[trigger] unit_term(g, t)) == 0,
    ensures
        unit_partial(g, c) == 0,
    decreases c,
{
    if c > 0 {
        lemma_zero_partials(g, (c - 1) as nat);
    }
}

/// Law: the determinant of the identity matrix is exactly one, for every
/// size.
pub proof fn lemma_det_identity(n: nat)
    requires
        n >= 1,
    ensures
        det_n(identity_grid(n)) == Some((1int, 1int)),
{
    lemma_identity_mono_unit(n);
    lemma_mono_unit_det(identity_grid(n));
}

} // verus!
