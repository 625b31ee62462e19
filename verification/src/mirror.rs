//! The Bezier mirror: a reflective curve in D-dimensional space.
//!
//! All geometry is exact.  A curve parameter is the fraction `tn / td`; a
//! point of the curve comes back as integer numerators over the denominator
//! `pow(td, degree)`.  The caller fixes one fixed-point scale for the whole
//! scene and hands every coordinate in as an integer numerator of that scale.

use crate::curve::{
    bernstein_weight, bez_sum, bez_weight, eval_fits, ipow, lemma_pow_nonneg, tan_sum, tan_weight,
    tangent_bound, tangent_fits, tangent_slim, COORD_LIMIT, EVAL_LIMIT, TAN_LIMIT,
};
use crate::vecmath::{
    dot, dot_product, ints_of_i128, ints_of_i64, lemma_dot_self_pos, reflection_entry,
    reflection_transform, DIM_LIMIT,
};
use vstd::arithmetic::power::{lemma_pow_positive, pow};
use vstd::arithmetic::power2::{lemma_pow2_pos, pow2};
use vstd::prelude::*;

verus! {

/// Why a mirror could not be built, or a tangent could not serve as an axis.
#[derive(Clone, Copy, Debug, PartialEq, Eq, Structural)]
pub enum MirrorError {
    /// The serialized control points do not describe a curve of the
    /// requested dimension, or a coordinate is out of the fixed-point range.
    MalformedInput,
    /// The derivative vanished at the requested parameter.
    DegenerateTangent,
}

/// A mirror shaped as a Bezier curve, given by its control polygon.
pub struct BezierMirror {
    pub control_points: Vec<Vec<i64>>,
}

/// The control-point rows of `data` all have length `dim`, with every
/// coordinate inside the fixed-point range, and there are at least two of
/// them: exactly the inputs from which a mirror can be built.
pub open spec fn parse_ok(data: Seq<Vec<i64>>, dim: nat) -> bool {
    &&& data.len() >= 2
    &&& 1 <= dim <= DIM_LIMIT
    &&& forall|i: int| 0 <= i < data.len() ==> #[trigger] data[i]@.len() == dim
    &&& forall|i: int, j: int|
        0 <= i < data.len() && 0 <= j < dim ==> -COORD_LIMIT <= #[trigger] data[i]@[j]
            <= COORD_LIMIT
}

impl BezierMirror {
    /// The spatial dimension shared by every point of this mirror.
    pub open spec fn dim(&self) -> nat {
        self.control_points@[0]@.len()
    }

    /// The number of control points; the curve degree is one less.
    pub open spec fn count(&self) -> nat {
        self.control_points@.len()
    }

    /// The control polygon as mathematical integers.
    pub open spec fn grid(&self) -> Seq<Seq<int>> {
        Seq::new(
            self.control_points@.len(),
            |i: int| Seq::new(self.dim(), |j: int| self.control_points@[i]@[j] as int),
        )
    }

    /// A mirror is well formed when its control points pass `parse_ok`.
    pub open spec fn wf(&self) -> bool {
        parse_ok(self.control_points@, self.dim())
    }

    /// Builds a mirror from a serialized control-point list: one row of
    /// exactly `dim` fixed-point numerators per control point.  Fails with
    /// `MalformedInput`, and only then, when fewer than two points are
    /// given, the dimension is out of range, a row has the wrong length,
    /// or a coordinate exceeds the fixed-point range.
    pub fn from_serialized(data: Vec<Vec<i64>>, dim: usize) -> (r: Result<BezierMirror, MirrorError>)
        ensures
            (r is Ok) <==> parse_ok(data@, dim as nat),
            r is Ok ==> {
                let m = r->Ok_0;
                &&& m.control_points@ == data@
                &&& m.dim() == dim
                &&& m.wf()
            },
            r is Err ==> r->Err_0 == MirrorError::MalformedInput,
    {
        if data.len() < 2 {
            return Err(MirrorError::MalformedInput);
        }
        if dim < 1 || dim > DIM_LIMIT {
            return Err(MirrorError::MalformedInput);
        }
        let mut i: usize = 0;
        while i < data.len()
            invariant
                i <= data@.len(),
                forall|i2: int| 0 <= i2 < i ==> #[trigger] data@[i2]@.len() == dim,
                forall|i2: int, j2: int|
                    0 <= i2 < i && 0 <= j2 < dim ==> -COORD_LIMIT <= #[trigger] data@[i2]@[j2]
                        <= COORD_LIMIT,
            decreases data@.len() - i,
        {
            let row = &data[i];
            if row.len() != dim {
                return Err(MirrorError::MalformedInput);
            }
            let mut j: usize = 0;
            while j < row.len()
                invariant
                    row == data@[i as int],
                    i < data@.len(),
                    j <= row@.len(),
                    forall|j2: int| 0 <= j2 < j ==> -COORD_LIMIT <= #[trigger] row@[j2]
                        <= COORD_LIMIT,
                decreases row@.len() - j,
            {
                if row[j] > COORD_LIMIT || row[j] < -COORD_LIMIT {
                    return Err(MirrorError::MalformedInput);
                }
                j = j + 1;
            }
            i = i + 1;
        }
        Ok(BezierMirror { control_points: data })
    }

    /// Hands back a fresh copy of the control polygon, row by row: the
    /// serialized form of this mirror, accepted back by `from_serialized`.
    pub fn serialized(&self) -> (r: Vec<Vec<i64>>)
        ensures
            r@.len() == self.control_points@.len(),
            forall|i: int| 0 <= i < r@.len() ==> #[trigger] r@[i]@ == self.control_points@[i]@,
    {
        let mut out: Vec<Vec<i64>> = Vec::new();
        let mut i: usize = 0;
        while i < self.control_points.len()
            invariant
                i <= self.control_points@.len(),
                out@.len() == i,
                forall|i2: int| 0 <= i2 < i ==> #[trigger] out@[i2]@ == self.control_points@[i2]@,
            decreases self.control_points@.len() - i,
        {
            let row = &self.control_points[i];
            let mut copy: Vec<i64> = Vec::new();
            let mut j: usize = 0;
            while j < row.len()
                invariant
                    row == self.control_points@[i as int],
                    i < self.control_points@.len(),
                    j <= row@.len(),
                    copy@.len() == j,
                    forall|j2: int| 0 <= j2 < j ==> #[trigger] copy@[j2] == row@[j2],
                decreases row@.len() - j,
            {
                copy.push(row[j]);
                j = j + 1;
            }
            proof {
                assert(copy@ =~= self.control_points@[i as int]@);
            }
            out.push(copy);
            i = i + 1;
        }
        out
    }

    /// The identifier under which a scene loader picks this mirror kind.
    pub fn get_type(&self) -> (r: &'static str)
        ensures
            r@ == "bezier"@,
    {
        "bezier"
    }

    /// The point of the curve at parameter `t_num / t_den`, as one exact
    /// numerator per coordinate over the denominator `pow(t_den, degree)`:
    /// the Bernstein sum of the control points.
    #[verifier::loop_isolation(false)]
    pub fn calculate_point(&self, t_num: u32, t_den: u32) -> (r: (Vec<i128>, i128))
        requires
            self.wf(),
            t_num <= t_den,
            1 <= t_den,
            eval_fits(self.count(), t_den as int),
        ensures
            r.0@.len() == self.dim(),
            forall|j: int|
                0 <= j < self.dim() ==> #[trigger] (r.0@[j] as int) == bez_sum(
                    self.grid(),
                    t_num as int,
                    t_den as int,
                    j,
                    self.count(),
                ),
            forall|j: int|
                0 <= j < self.dim() ==> -(EVAL_LIMIT as int) <= #[trigger] (r.0@[j] as int)
                    <= EVAL_LIMIT as int,
            r.1 as int == pow(t_den as int, (self.count() - 1) as nat),
            1 <= r.1,
            r.1 <= 576460752303423488,
    {
        let ghost g = self.grid();
        let ghost tn = t_num as int;
        let ghost td = t_den as int;
        let len = self.control_points.len();
        let n = len - 1;
        let ghost nn = n as nat;
        let ghost wb = pow2(nn) * pow(td, nn);
        let ghost tb = wb * (COORD_LIMIT as int);
        proof {
            lemma_pow2_pos(nn);
            lemma_pow_nonneg(td, nn);
            assert((len as int) * tb <= EVAL_LIMIT && wb * (2 * (COORD_LIMIT as int)) <= EVAL_LIMIT
                && wb <= EVAL_LIMIT && 0 <= tb && pow(td, nn) <= wb && pow(td, nn) <= EVAL_LIMIT)
                by (nonlinear_arith)
                requires
                    (len as int) * pow2(nn) * pow(td, nn) * (COORD_LIMIT as int) <= EVAL_LIMIT,
                    len >= 2,
                    pow2(nn) >= 1,
                    pow(td, nn) >= 0,
                    COORD_LIMIT > 0,
                    wb == pow2(nn) * pow(td, nn),
                    tb == wb * (COORD_LIMIT as int),
            ;
        }
        let dim = self.control_points[0].len();
        let mut acc: Vec<i128> = Vec::new();
        while acc.len() < dim
            invariant
                acc@.len() <= dim,
                forall|j: int| 0 <= j < acc@.len() ==> #[trigger] acc@[j] == 0,
            decreases dim - acc@.len(),
        {
            acc.push(0);
        }
        proof {
            assert(forall|j: int| bez_sum(g, tn, td, j, 0) == 0);
        }
        let mut i: usize = 0;
        while i < len
            invariant
                i <= len,
                acc@.len() == dim,
                forall|j: int|
                    0 <= j < dim ==> #[trigger] (acc@[j] as int) == bez_sum(g, tn, td, j, i as nat),
                forall|j: int|
                    0 <= j < dim ==> -((i as int) * tb) <= #[trigger] (acc@[j] as int) <= (i as int)
                        * tb,
            decreases len - i,
        {
            let w = bernstein_weight(n, i, t_num, t_den);
            let mut j: usize = 0;
            while j < dim
                invariant
                    i < len,
                    j <= dim,
                    acc@.len() == dim,
                    w as int == bez_weight(nn, i as nat, tn, td),
                    0 <= w as int <= wb,
                    forall|j2: int|
                        0 <= j2 < j ==> #[trigger] (acc@[j2] as int) == bez_sum(
                            g,
                            tn,
                            td,
                            j2,
                            (i + 1) as nat,
                        ),
                    forall|j2: int|
                        0 <= j2 < j ==> -(((i + 1) as int) * tb) <= #[trigger] (acc@[j2] as int)
                            <= ((i + 1) as int) * tb,
                    forall|j2: int|
                        j <= j2 < dim ==> #[trigger] (acc@[j2] as int) == bez_sum(
                            g,
                            tn,
                            td,
                            j2,
                            i as nat,
                        ),
                    forall|j2: int|
                        j <= j2 < dim ==> -((i as int) * tb) <= #[trigger] (acc@[j2] as int) <= (
                        i as int) * tb,
                decreases dim - j,
            {
                let cval = self.control_points[i][j];
                proof {
                    let c = g[i as int][j as int];
                    assert(c == cval as int);
                    assert(-tb <= (w as int) * c <= tb) by (nonlinear_arith)
                        requires
                            0 <= w as int <= wb,
                            -(COORD_LIMIT as int) <= c <= COORD_LIMIT as int,
                            tb == wb * (COORD_LIMIT as int),
                    ;
                    assert(((i + 1) as int) * tb == (i as int) * tb + tb) by (nonlinear_arith);
                    assert(((i + 1) as int) * tb <= (len as int) * tb) by (nonlinear_arith)
                        requires
                            i + 1 <= len,
                            0 <= tb,
                    ;
                    assert((i as int) * tb <= (len as int) * tb && -((len as int) * tb) <= -((
                    i as int) * tb)) by (nonlinear_arith)
                        requires
                            i <= len,
                            0 <= tb,
                    ;
                    assert(bez_sum(g, tn, td, j as int, (i + 1) as nat) == bez_sum(
                        g,
                        tn,
                        td,
                        j as int,
                        i as nat,
                    ) + bez_weight((g.len() - 1) as nat, i as nat, tn, td) * g[i as int][j as int]);
                }
                let term = w * (cval as i128);
                let prev = acc[j];
                acc.set(j, prev + term);
                j = j + 1;
            }
            i = i + 1;
        }
        proof {
            assert((len as int) * tb <= EVAL_LIMIT);
        }
        let d0 = ipow(t_den as i128, n);
        proof {
            lemma_pow_positive(td, nn);
            assert(2147483648 * (d0 as int) <= EVAL_LIMIT) by (nonlinear_arith)
                requires
                    d0 as int <= wb,
                    wb * (2 * (COORD_LIMIT as int)) <= EVAL_LIMIT,
                    COORD_LIMIT == 0x4000_0000,
                    d0 >= 0,
                    wb >= 0,
            ;
        }
        (acc, d0)
    }

    /// The derivative of the curve at parameter `t_num / t_den`, as one
    /// exact numerator per coordinate over the denominator
    /// `pow(t_den, degree - 1)`.  When the derivative is the zero vector the
    /// tangent direction is undefined and `DegenerateTangent` comes back;
    /// otherwise, and only otherwise, the numerators are returned.
    #[verifier::loop_isolation(false)]
    pub fn calculate_tangent(&self, t_num: u32, t_den: u32) -> (r: Result<
        (Vec<i128>, i128),
        MirrorError,
    >)
        requires
            self.wf(),
            t_num <= t_den,
            1 <= t_den,
            tangent_fits(self.count(), t_den as int),
        ensures
            (r is Err) <==> (forall|j: int|
                0 <= j < self.dim() ==> #[trigger] tan_sum(
                    self.grid(),
                    t_num as int,
                    t_den as int,
                    j,
                    (self.count() - 1) as nat,
                ) == 0),
            r is Err ==> r->Err_0 == MirrorError::DegenerateTangent,
            r is Ok ==> {
                let v = r->Ok_0;
                &&& v.0@.len() == self.dim()
                &&& forall|j: int|
                    0 <= j < self.dim() ==> #[trigger] (v.0@[j] as int) == tan_sum(
                        self.grid(),
                        t_num as int,
                        t_den as int,
                        j,
                        (self.count() - 1) as nat,
                    )
                &&& forall|j: int|
                    0 <= j < self.dim() ==> -tangent_bound(self.count(), t_den as int)
                        <= #[trigger] (v.0@[j] as int) <= tangent_bound(self.count(), t_den as int)
                &&& v.1 as int == pow(t_den as int, (self.count() - 2) as nat)
                &&& 1 <= v.1
            },
    {
        let ghost g = self.grid();
        let ghost tn = t_num as int;
        let ghost td = t_den as int;
        let len = self.control_points.len();
        let n = len - 1;
        let ghost nn = n as nat;
        let ghost n1 = (n - 1) as nat;
        let ghost wb = pow2(n1) * pow(td, n1);
        let ghost tb = (len as int) * wb * (2 * (COORD_LIMIT as int));
        proof {
            lemma_pow2_pos(n1);
            lemma_pow_nonneg(td, n1);
            assert((len as int) * tb <= EVAL_LIMIT && pow2(n1) * pow(td, n1) <= EVAL_LIMIT && 0
                <= tb && (len as int) * wb <= EVAL_LIMIT && pow(td, n1) <= EVAL_LIMIT)
                by (nonlinear_arith)
                requires
                    tangent_bound(len as nat, td) <= EVAL_LIMIT,
                    tangent_bound(len as nat, td) == (len as int) * (len as int) * pow2(n1) * pow(
                        td,
                        n1,
                    ) * (2 * (COORD_LIMIT as int)),
                    len >= 2,
                    pow2(n1) >= 1,
                    pow(td, n1) >= 0,
                    COORD_LIMIT > 0,
                    wb == pow2(n1) * pow(td, n1),
                    tb == (len as int) * wb * (2 * (COORD_LIMIT as int)),
            ;
        }
        let dim = self.control_points[0].len();
        let mut acc: Vec<i128> = Vec::new();
        while acc.len() < dim
            invariant
                acc@.len() <= dim,
                forall|j: int| 0 <= j < acc@.len() ==> #[trigger] acc@[j] == 0,
            decreases dim - acc@.len(),
        {
            acc.push(0);
        }
        proof {
            assert(forall|j: int| tan_sum(g, tn, td, j, 0) == 0);
        }
        let mut i: usize = 0;
        while i < n
            invariant
                i <= n,
                acc@.len() == dim,
                forall|j: int|
                    0 <= j < dim ==> #[trigger] (acc@[j] as int) == tan_sum(g, tn, td, j, i as nat),
                forall|j: int|
                    0 <= j < dim ==> -((i as int) * tb) <= #[trigger] (acc@[j] as int) <= (i as int)
                        * tb,
            decreases n - i,
        {
            let w = bernstein_weight(n - 1, i, t_num, t_den);
            proof {
                assert((n as int) * (w as int) <= (len as int) * wb && 0 <= (n as int) * (w as int))
                    by (nonlinear_arith)
                    requires
                        0 <= w as int <= wb,
                        0 <= n < len,
                ;
            }
            let wt = (n as i128) * w;
            let mut j: usize = 0;
            while j < dim
                invariant
                    i < n,
                    j <= dim,
                    acc@.len() == dim,
                    w as int == bez_weight(n1, i as nat, tn, td),
                    wt as int == (n as int) * (w as int),
                    0 <= wt as int <= (len as int) * wb,
                    forall|j2: int|
                        0 <= j2 < j ==> #[trigger] (acc@[j2] as int) == tan_sum(
                            g,
                            tn,
                            td,
                            j2,
                            (i + 1) as nat,
                        ),
                    forall|j2: int|
                        0 <= j2 < j ==> -(((i + 1) as int) * tb) <= #[trigger] (acc@[j2] as int)
                            <= ((i + 1) as int) * tb,
                    forall|j2: int|
                        j <= j2 < dim ==> #[trigger] (acc@[j2] as int) == tan_sum(
                            g,
                            tn,
                            td,
                            j2,
                            i as nat,
                        ),
                    forall|j2: int|
                        j <= j2 < dim ==> -((i as int) * tb) <= #[trigger] (acc@[j2] as int) <= (
                        i as int) * tb,
                decreases dim - j,
            {
                let ca = self.control_points[i + 1][j];
                let cb = self.control_points[i][j];
                let diff = (ca as i128) - (cb as i128);
                proof {
                    let d = g[i + 1][j as int] - g[i as int][j as int];
                    assert(d == diff as int);
                    assert(-tb <= (wt as int) * d <= tb) by (nonlinear_arith)
                        requires
                            0 <= wt as int <= (len as int) * wb,
                            -(2 * (COORD_LIMIT as int)) <= d <= 2 * (COORD_LIMIT as int),
                            tb == (len as int) * wb * (2 * (COORD_LIMIT as int)),
                    ;
                    assert(((i + 1) as int) * tb == (i as int) * tb + tb) by (nonlinear_arith);
                    assert(((i + 1) as int) * tb <= (len as int) * tb) by (nonlinear_arith)
                        requires
                            i + 1 <= len,
                            0 <= tb,
                    ;
                    assert(tan_sum(g, tn, td, j as int, (i + 1) as nat) == tan_sum(
                        g,
                        tn,
                        td,
                        j as int,
                        i as nat,
                    ) + tan_weight((g.len() - 1) as nat, i as nat, tn, td) * (g[i + 1][j as int]
                        - g[i as int][j as int]));
                    assert(tan_weight(nn, i as nat, tn, td) == (nn as int) * bez_weight(
                        n1,
                        i as nat,
                        tn,
                        td,
                    ));
                }
                let term = wt * diff;
                let prev = acc[j];
                acc.set(j, prev + term);
                j = j + 1;
            }
            i = i + 1;
        }
        proof {
            assert((n as int) * tb <= (len as int) * tb <= EVAL_LIMIT) by (nonlinear_arith)
                requires
                    n < len,
                    0 <= tb,
                    (len as int) * tb <= EVAL_LIMIT,
            ;
            assert((len as int) * tb == tangent_bound(len as nat, td)) by (nonlinear_arith)
                requires
                    tb == (len as int) * wb * (2 * (COORD_LIMIT as int)),
                    wb == pow2(n1) * pow(td, n1),
                    tangent_bound(len as nat, td) == (len as int) * (len as int) * pow2(n1) * pow(
                        td,
                        n1,
                    ) * (2 * (COORD_LIMIT as int)),
            ;
        }
        let mut nonzero = false;
        let mut j: usize = 0;
        while j < dim
            invariant
                j <= dim,
                acc@.len() == dim,
                nonzero <==> exists|j2: int| 0 <= j2 < j && acc@[j2] != 0,
            decreases dim - j,
        {
            if acc[j] != 0 {
                nonzero = true;
            }
            j = j + 1;
        }
        if !nonzero {
            proof {
                assert forall|j2: int| 0 <= j2 < self.dim() implies #[trigger] tan_sum(
                    self.grid(),
                    tn,
                    td,
                    j2,
                    (self.count() - 1) as nat,
                ) == 0 by {
                    assert((acc@[j2] as int) == tan_sum(g, tn, td, j2, n as nat));
                    assert(acc@[j2] == 0);
                }
            }
            return Err(MirrorError::DegenerateTangent);
        }
        proof {
            let jw = choose|j2: int| 0 <= j2 < dim && acc@[j2] != 0;
            assert((acc@[jw] as int) == tan_sum(g, tn, td, jw, n as nat));
            assert(tan_sum(self.grid(), tn, td, jw, (self.count() - 1) as nat) != 0);
        }
        let d1 = ipow(t_den as i128, n - 1);
        proof {
            lemma_pow_positive(td, n1);
        }
        Ok((acc, d1))
    }

    /// Finds every parameter of the sample grid `0/samples .. samples/samples`
    /// at which the curve point lies exactly on the ray, paired with the
    /// numerator of its signed ray distance, ordered by ascending distance.
    /// Each grid parameter appears at most once; a parameter appears exactly
    /// when its curve point is a hit.
    #[verifier::loop_isolation(false)]
    pub fn intersect(&self, ray: &Ray, samples: u32) -> (r: Vec<(u32, i128)>)
        requires
            self.wf(),
            ray.wf(),
            ray.dim() == self.dim(),
            1 <= samples < 0xFFFF_FFFFu32,
            eval_fits(self.count(), samples as int),
        ensures
            forall|idx: int|
                0 <= idx < r@.len() ==> (#[trigger] r@[idx]).0 <= samples && is_hit(
                    self.grid(),
                    *ray,
                    r@[idx].0 as int,
                    samples as int,
                ) && r@[idx].1 as int == ray_dot(self.grid(), *ray, r@[idx].0 as int, samples as int),
            forall|g2: int|
                0 <= g2 <= samples && #[trigger] is_hit(self.grid(), *ray, g2, samples as int)
                    ==> exists|idx: int| 0 <= idx < r@.len() && (#[trigger] r@[idx]).0 == g2,
            forall|a: int, b: int|
                #![trigger r@[a], r@[b]]
                0 <= a < b < r@.len() ==> r@[a].1 <= r@[b].1 && r@[a].0 != r@[b].0,
    {
        let ghost g = self.grid();
        let ghost td = samples as int;
        let ghost oi = ray.origin_ints();
        let ghost di = ray.direction_ints();
        let len = self.control_points.len();
        let dim = self.control_points[0].len();
        let mut res: Vec<(u32, i128)> = Vec::new();
        let mut gv: u32 = 0;
        while gv <= samples
            invariant
                gv <= samples + 1,
                forall|idx: int|
                    0 <= idx < res@.len() ==> (#[trigger] res@[idx]).0 < gv && res@[idx].0
                        <= samples && is_hit(g, *ray, res@[idx].0 as int, td) && res@[idx].1 as int
                        == ray_dot(g, *ray, res@[idx].0 as int, td),
                forall|g2: int|
                    0 <= g2 < gv && #[trigger] is_hit(g, *ray, g2, td) ==> exists|idx: int|
                        0 <= idx < res@.len() && (#[trigger] res@[idx]).0 == g2,
                forall|a: int, b: int|
                    #![trigger res@[a], res@[b]]
                    0 <= a < b < res@.len() ==> res@[a].1 <= res@[b].1 && res@[a].0 != res@[b].0,
            decreases samples - gv + 1,
        {
            let ghost tn = gv as int;
            let (p, d0) = self.calculate_point(gv, samples);
            let mut rel: Vec<i128> = Vec::new();
            let mut j: usize = 0;
            while j < dim
                invariant
                    j <= dim,
                    rel@.len() == j,
                    1 <= d0 <= 576460752303423488,
                    p@.len() == dim,
                    forall|j2: int|
                        0 <= j2 < j ==> #[trigger] (rel@[j2] as int) == rel_num(g, oi, tn, td, j2),
                    forall|j2: int|
                        0 <= j2 < j ==> -(2 * (EVAL_LIMIT as int)) <= #[trigger] (rel@[j2] as int)
                            <= 2 * (EVAL_LIMIT as int),
                decreases dim - j,
            {
                let ov = ray.origin[j];
                proof {
                    assert(-(EVAL_LIMIT as int) <= (ov as int) * (d0 as int) <= EVAL_LIMIT as int)
                        by (nonlinear_arith)
                        requires
                            -(COORD_LIMIT as int) <= ov as int <= COORD_LIMIT as int,
                            1 <= d0 as int <= 576460752303423488,
                            COORD_LIMIT == 0x4000_0000,
                            EVAL_LIMIT == 1237940039285380274899124224,
                    ;
                }
                let relv = p[j] - (ov as i128) * d0;
                rel.push(relv);
                j = j + 1;
            }
            let mut parallel = true;
            let mut j: usize = 0;
            while j < dim
                invariant
                    j <= dim,
                    parallel <==> (forall|j2: int, k2: int|
                        0 <= j2 < j && j2 < k2 < dim ==> #[trigger] cross_ok(
                            g,
                            *ray,
                            tn,
                            td,
                            j2,
                            k2,
                        )),
                decreases dim - j,
            {
                let mut k: usize = j + 1;
                while k < dim
                    invariant
                        j < dim,
                        j + 1 <= k <= dim,
                        parallel <==> ((forall|j2: int, k2: int|
                            0 <= j2 < j && j2 < k2 < dim ==> #[trigger] cross_ok(
                                g,
                                *ray,
                                tn,
                                td,
                                j2,
                                k2,
                            )) && (forall|k2: int|
                            j < k2 < k ==> #[trigger] cross_ok(g, *ray, tn, td, j as int, k2))),
                    decreases dim - k,
                {
                    proof {
                        let ra = rel@[j as int] as int;
                        let rb = rel@[k as int] as int;
                        let da = ray.direction@[j as int] as int;
                        let db = ray.direction@[k as int] as int;
                        assert(-(EVAL_LIMIT as int) * 0x1_0000_0000 <= ra * db <= (EVAL_LIMIT as int)
                            * 0x1_0000_0000 && -(EVAL_LIMIT as int) * 0x1_0000_0000 <= rb * da <= (
                        EVAL_LIMIT as int) * 0x1_0000_0000) by (nonlinear_arith)
                            requires
                                -(2 * (EVAL_LIMIT as int)) <= ra <= 2 * (EVAL_LIMIT as int),
                                -(2 * (EVAL_LIMIT as int)) <= rb <= 2 * (EVAL_LIMIT as int),
                                -(COORD_LIMIT as int) <= da <= COORD_LIMIT as int,
                                -(COORD_LIMIT as int) <= db <= COORD_LIMIT as int,
                                COORD_LIMIT == 0x4000_0000,
                        ;
                    }
                    let lhs = rel[j] * (ray.direction[k] as i128);
                    let rhs = rel[k] * (ray.direction[j] as i128);
                    if lhs != rhs {
                        parallel = false;
                        proof {
                            assert(!cross_ok(g, *ray, tn, td, j as int, k as int));
                        }
                    } else {
                        proof {
                            assert(cross_ok(g, *ray, tn, td, j as int, k as int));
                        }
                    }
                    k = k + 1;
                }
                j = j + 1;
            }
            proof {
                if parallel {
                    assert forall|j2: int, k2: int|
                        0 <= j2 < ray.dim() && 0 <= k2 < ray.dim() implies #[trigger] cross_ok(
                        g,
                        *ray,
                        tn,
                        td,
                        j2,
                        k2,
                    ) by {
                        if j2 < k2 {
                            assert(cross_ok(g, *ray, tn, td, j2, k2));
                        } else if j2 == k2 {
                            assert(cross_ok(g, *ray, tn, td, j2, k2));
                        } else {
                            assert(cross_ok(g, *ray, tn, td, k2, j2));
                        }
                    }
                    assert(on_ray_line(g, *ray, tn, td));
                } else {
                    assert(!on_ray_line(g, *ray, tn, td));
                }
            }
            let sval = dot_product(&rel, &ray.direction, 2 * EVAL_LIMIT);
            proof {
                assert(ints_of_i128(rel@) =~= rel_seq(g, oi, tn, td));
                assert(sval as int == ray_dot(g, *ray, tn, td));
            }
            if parallel && sval >= 0 {
                let mut pos: usize = res.len();
                while pos > 0 && res[pos - 1].1 > sval
                    invariant
                        pos <= res@.len(),
                        forall|k2: int|
                            pos <= k2 < res@.len() ==> (#[trigger] res@[k2]).1 > sval,
                    decreases pos,
                {
                    pos = pos - 1;
                }
                let ghost prev = res@;
                proof {
                    prev.insert_ensures(pos as int, (gv, sval));
                }
                res.insert(pos, (gv, sval));
                proof {
                    assert forall|g2: int|
                        0 <= g2 < gv + 1 && #[trigger] is_hit(g, *ray, g2, td) implies exists|
                        idx: int,
                    |
                        0 <= idx < res@.len() && (#[trigger] res@[idx]).0 == g2 by {
                        if g2 == gv {
                            assert(res@[pos as int].0 == g2);
                        } else {
                            let idx0 = choose|idx: int|
                                0 <= idx < prev.len() && (#[trigger] prev[idx]).0 == g2;
                            if idx0 < pos {
                                assert(res@[idx0].0 == g2);
                            } else {
                                assert(res@[idx0 + 1].0 == g2);
                            }
                        }
                    }
                    assert forall|a: int, b: int|
                        #![trigger res@[a], res@[b]]
                        0 <= a < b < res@.len() implies res@[a].1 <= res@[b].1 && res@[a].0
                        != res@[b].0 by {
                        if b < pos {
                            assert(res@[a] == prev[a] && res@[b] == prev[b]);
                        } else if a > pos {
                            assert(res@[a] == prev[a - 1] && res@[b] == prev[b - 1]);
                        } else if a == pos {
                            assert(res@[a] == (gv, sval) && res@[b] == prev[b - 1]);
                            assert(prev[b - 1].1 > sval);
                        } else if b == pos {
                            assert(res@[a] == prev[a] && res@[b] == (gv, sval));
                            assert(prev[pos - 1].1 <= sval);
                            if a < pos - 1 {
                                assert(prev[a].1 <= prev[pos - 1].1);
                            }
                        } else {
                            assert(a < pos && b > pos);
                            assert(res@[a] == prev[a] && res@[b] == prev[b - 1]);
                            assert(prev[b - 1].1 > sval);
                            assert(prev[pos - 1].1 <= sval || pos == 0);
                            if a < pos - 1 {
                                assert(prev[a].1 <= prev[pos - 1].1);
                            }
                        }
                    }
                }
            } else {
                proof {
                    assert(!is_hit(g, *ray, tn, td));
                }
            }
            gv = gv + 1;
        }
        res
    }

    /// Reflects a ray by the mirror: one entry per grid parameter at which
    /// the ray meets the curve and the tangent direction exists, ordered by
    /// ascending signed distance.  Each entry carries the exact distance
    /// fraction and the exact reflection matrix across the local tangent.
    /// An empty result means the ray misses the mirror; a hit whose tangent
    /// degenerates is skipped, not an error.
    #[verifier::loop_isolation(false)]
    pub fn reflect(&self, ray: &Ray, samples: u32) -> (r: Vec<Reflection>)
        requires
            self.wf(),
            ray.wf(),
            ray.dim() == self.dim(),
            1 <= samples < 0xFFFF_FFFFu32,
            eval_fits(self.count(), samples as int),
            tangent_fits(self.count(), samples as int),
            tangent_slim(self.count(), samples as int),
        ensures
            forall|idx: int|
                0 <= idx < r@.len() ==> {
                    let h = #[trigger] r@[idx];
                    &&& h.t_num <= samples
                    &&& is_hit(self.grid(), *ray, h.t_num as int, samples as int)
                    &&& !degenerate_at(self.grid(), h.t_num as int, samples as int)
                    &&& h.distance_num as int == ray_dot(
                        self.grid(),
                        *ray,
                        h.t_num as int,
                        samples as int,
                    )
                    &&& h.distance_den as int == pow(samples as int, (self.count() - 1) as nat)
                        * dot(ray.direction_ints(), ray.direction_ints())
                    &&& h.distance_den > 0
                    &&& h.transform_den as int == dot(
                        tangent_seq(self.grid(), h.t_num as int, samples as int),
                        tangent_seq(self.grid(), h.t_num as int, samples as int),
                    )
                    &&& h.transform_den > 0
                    &&& h.transform_num@.len() == self.dim()
                    &&& forall|i: int|
                        0 <= i < self.dim() ==> (#[trigger] h.transform_num@[i])@.len()
                            == self.dim()
                    &&& forall|i: int, j: int|
                        0 <= i < self.dim() && 0 <= j < self.dim()
                            ==> #[trigger] (h.transform_num@[i]@[j] as int) == reflection_entry(
                            tangent_seq(self.grid(), h.t_num as int, samples as int),
                            i,
                            j,
                        )
                },
            forall|g2: int|
                0 <= g2 <= samples && #[trigger] is_hit(self.grid(), *ray, g2, samples as int)
                    && !degenerate_at(self.grid(), g2, samples as int) ==> exists|idx: int|
                    0 <= idx < r@.len() && (#[trigger] r@[idx]).t_num == g2,
            forall|a: int, b: int|
                #![trigger r@[a], r@[b]]
                0 <= a < b < r@.len() ==> r@[a].distance_num <= r@[b].distance_num && r@[a].t_num
                    != r@[b].t_num,
    {
        let ghost g = self.grid();
        let ghost td = samples as int;
        let ghost di = ray.direction_ints();
        let len = self.control_points.len();
        let dim = self.control_points[0].len();
        let hits = self.intersect(ray, samples);
        let mut dir_w: Vec<i128> = Vec::new();
        let mut j: usize = 0;
        while j < dim
            invariant
                j <= dim,
                dir_w@.len() == j,
                forall|j2: int| 0 <= j2 < j ==> #[trigger] dir_w@[j2] == ray.direction@[j2] as i128,
            decreases dim - j,
        {
            dir_w.push(ray.direction[j] as i128);
            j = j + 1;
        }
        let dd = dot_product(&dir_w, &ray.direction, COORD_LIMIT as i128);
        proof {
            assert(ints_of_i128(dir_w@) =~= di);
            let jw = choose|j2: int| 0 <= j2 < ray.direction@.len() && ray.direction@[j2] != 0;
            lemma_dot_self_pos(di, jw);
        }
        let ghost nn = (len - 1) as nat;
        let ghost wb = pow2(nn) * pow(td, nn);
        proof {
            lemma_pow2_pos(nn);
            lemma_pow_nonneg(td, nn);
            assert(pow(td, nn) <= wb && wb * (2 * (COORD_LIMIT as int)) <= EVAL_LIMIT && pow(td, nn)
                <= EVAL_LIMIT) by (nonlinear_arith)
                requires
                    (len as int) * pow2(nn) * pow(td, nn) * (COORD_LIMIT as int) <= EVAL_LIMIT,
                    len >= 2,
                    pow2(nn) >= 1,
                    pow(td, nn) >= 0,
                    COORD_LIMIT > 0,
                    wb == pow2(nn) * pow(td, nn),
            ;
        }
        let d0 = ipow(samples as i128, len - 1);
        proof {
            lemma_pow_positive(td, nn);
            assert(2147483648 * (d0 as int) <= EVAL_LIMIT) by (nonlinear_arith)
                requires
                    d0 as int <= wb,
                    wb * (2 * (COORD_LIMIT as int)) <= EVAL_LIMIT,
                    COORD_LIMIT == 0x4000_0000,
                    d0 >= 0,
                    wb >= 0,
            ;
            assert(1 <= (d0 as int) * (dd as int) <= 0x4000_0000_0000_0000_0000_0000_0000_0000)
                by (nonlinear_arith)
                requires
                    1 <= d0 as int <= 576460752303423488,
                    1 <= dd as int <= (DIM_LIMIT as int) * (COORD_LIMIT as int) * (
                    COORD_LIMIT as int),
                    DIM_LIMIT == 32,
                    COORD_LIMIT == 0x4000_0000,
            ;
        }
        let dden = d0 * dd;
        let mut out: Vec<Reflection> = Vec::new();
        let mut h: usize = 0;
        while h < hits.len()
            invariant
                h <= hits@.len(),
                forall|idx: int|
                    0 <= idx < out@.len() ==> {
                        let e = #[trigger] out@[idx];
                        &&& e.t_num <= samples
                        &&& is_hit(g, *ray, e.t_num as int, td)
                        &&& !degenerate_at(g, e.t_num as int, td)
                        &&& e.distance_num as int == ray_dot(g, *ray, e.t_num as int, td)
                        &&& e.distance_den == dden
                        &&& e.transform_den as int == dot(
                            tangent_seq(g, e.t_num as int, td),
                            tangent_seq(g, e.t_num as int, td),
                        )
                        &&& e.transform_den > 0
                        &&& e.transform_num@.len() == dim
                        &&& forall|i: int|
                            0 <= i < dim ==> (#[trigger] e.transform_num@[i])@.len() == dim
                        &&& forall|i: int, j2: int|
                            0 <= i < dim && 0 <= j2 < dim
                                ==> #[trigger] (e.transform_num@[i]@[j2] as int)
                                == reflection_entry(tangent_seq(g, e.t_num as int, td), i, j2)
                    },
                forall|g2: int|
                    0 <= g2 <= samples && #[trigger] is_hit(g, *ray, g2, td) && !degenerate_at(
                        g,
                        g2,
                        td,
                    ) && (exists|h2: int| 0 <= h2 < h && (#[trigger] hits@[h2]).0 == g2) ==> exists|
                        idx: int,
                    |
                        0 <= idx < out@.len() && (#[trigger] out@[idx]).t_num == g2,
                forall|a: int, b: int|
                    #![trigger out@[a], out@[b]]
                    0 <= a < b < out@.len() ==> out@[a].distance_num <= out@[b].distance_num
                        && out@[a].t_num != out@[b].t_num,
                forall|idx: int|
                    0 <= idx < out@.len() ==> exists|h2: int|
                        0 <= h2 < h && (#[trigger] out@[idx]).t_num == hits@[h2].0
                            && out@[idx].distance_num == hits@[h2].1,
            decreases hits@.len() - h,
        {
            let pair = hits[h];
            let gv = pair.0;
            let sv = pair.1;
            match self.calculate_tangent(gv, samples) {
                Err(_) => proof {
                    assert(degenerate_at(g, gv as int, td));
                    assert forall|g2: int|
                        0 <= g2 <= samples && #[trigger] is_hit(g, *ray, g2, td) && !degenerate_at(
                            g,
                            g2,
                            td,
                        ) && (exists|h2: int| 0 <= h2 < h + 1 && (#[trigger] hits@[h2]).0 == g2)
                        implies exists|idx: int|
                        0 <= idx < out@.len() && (#[trigger] out@[idx]).t_num == g2 by {
                        let h2 = choose|h3: int| 0 <= h3 < h + 1 && (#[trigger] hits@[h3]).0 == g2;
                        if h2 == h {
                            assert(g2 == gv as int);
                            assert(false);
                        } else {
                            assert(exists|h3: int| 0 <= h3 < h && (#[trigger] hits@[h3]).0 == g2);
                        }
                    }
                },
                Ok(tpair) => {
                    let tvec = tpair.0;
                    let mut w: Vec<i64> = Vec::new();
                    let mut j2: usize = 0;
                    while j2 < dim
                        invariant
                            j2 <= dim,
                            w@.len() == j2,
                            tvec@.len() == dim,
                            forall|j3: int|
                                0 <= j3 < dim ==> #[trigger] (tvec@[j3] as int) == tan_sum(
                                    g,
                                    gv as int,
                                    td,
                                    j3,
                                    nn,
                                ) && -TAN_LIMIT <= tvec@[j3] as int <= TAN_LIMIT,
                            forall|j3: int| 0 <= j3 < j2 ==> #[trigger] (w@[j3] as int) == tvec@[j3] as int,
                        decreases dim - j2,
                    {
                        w.push(tvec[j2] as i64);
                        j2 = j2 + 1;
                    }
                    proof {
                        assert(exists|j3: int| 0 <= j3 < dim && w@[j3] != 0) by {
                            assert(!(forall|j3: int|
                                0 <= j3 < self.dim() ==> #[trigger] tan_sum(
                                    self.grid(),
                                    gv as int,
                                    td,
                                    j3,
                                    (self.count() - 1) as nat,
                                ) == 0));
                            let jw = choose|j3: int|
                                0 <= j3 < self.dim() && #[trigger] tan_sum(
                                    self.grid(),
                                    gv as int,
                                    td,
                                    j3,
                                    (self.count() - 1) as nat,
                                ) != 0;
                            assert(w@[jw] as int == tan_sum(g, gv as int, td, jw, nn));
                            assert(w@[jw] != 0);
                        }
                    }
                    let (mat, norm2) = reflection_transform(&w);
                    proof {
                        assert(ints_of_i64(w@) =~= tangent_seq(g, gv as int, td));
                    }
                    let ghost prev = out@;
                    out.push(
                        Reflection {
                            t_num: gv,
                            distance_num: sv,
                            distance_den: dden,
                            transform_num: mat,
                            transform_den: norm2,
                        },
                    );
                    proof {
                        assert forall|a: int, b: int|
                            #![trigger out@[a], out@[b]]
                            0 <= a < b < out@.len() implies out@[a].distance_num
                            <= out@[b].distance_num && out@[a].t_num != out@[b].t_num by {
                            if b < prev.len() {
                                assert(out@[a] == prev[a] && out@[b] == prev[b]);
                            } else {
                                assert(out@[b].t_num == gv && out@[b].distance_num == sv);
                                let h2 = choose|h3: int|
                                    0 <= h3 < h && (#[trigger] prev[a]).t_num == hits@[h3].0
                                        && prev[a].distance_num == hits@[h3].1;
                                assert(hits@[h2].1 <= hits@[h as int].1);
                                assert(hits@[h2].0 != hits@[h as int].0);
                            }
                        }
                        assert forall|g2: int|
                            0 <= g2 <= samples && #[trigger] is_hit(g, *ray, g2, td) && !degenerate_at(
                                g,
                                g2,
                                td,
                            ) && (exists|h2: int| 0 <= h2 < h + 1 && (#[trigger] hits@[h2]).0 == g2)
                            implies exists|idx: int|
                            0 <= idx < out@.len() && (#[trigger] out@[idx]).t_num == g2 by {
                            let h2 = choose|h3: int| 0 <= h3 < h + 1 && (#[trigger] hits@[h3]).0 == g2;
                            if h2 == h {
                                assert(out@[out@.len() - 1].t_num == g2);
                            } else {
                                assert(exists|h3: int| 0 <= h3 < h && (#[trigger] hits@[h3]).0 == g2);
                                let idx0 = choose|idx: int|
                                    0 <= idx < prev.len() && (#[trigger] prev[idx]).t_num == g2;
                                assert(out@[idx0].t_num == g2);
                            }
                        }
                    }
                },
            }
            h = h + 1;
        }
        proof {
            assert forall|g2: int|
                0 <= g2 <= samples && #[trigger] is_hit(g, *ray, g2, td) && !degenerate_at(
                    g,
                    g2,
                    td,
                ) implies exists|idx: int|
                0 <= idx < out@.len() && (#[trigger] out@[idx]).t_num == g2 by {
                assert(exists|idx: int| 0 <= idx < hits@.len() && (#[trigger] hits@[idx]).0 == g2);
            }
        }
        out
    }
}

/// A ray: an origin and a direction, as fixed-point numerators of the same
/// scale as the mirror's control points.
pub struct Ray {
    pub origin: Vec<i64>,
    pub direction: Vec<i64>,
}

impl Ray {
    /// The spatial dimension of the ray.
    pub open spec fn dim(&self) -> nat {
        self.origin@.len()
    }

    /// The origin as mathematical integers.
    pub open spec fn origin_ints(&self) -> Seq<int> {
        ints_of_i64(self.origin@)
    }

    /// The direction as mathematical integers.
    pub open spec fn direction_ints(&self) -> Seq<int> {
        ints_of_i64(self.direction@)
    }

    /// A ray is well formed when origin and direction share one dimension,
    /// every coordinate is in the fixed-point range, and the direction is
    /// not the zero vector.
    pub open spec fn wf(&self) -> bool {
        &&& self.direction@.len() == self.origin@.len()
        &&& forall|j: int|
            0 <= j < self.origin@.len() ==> -COORD_LIMIT <= #[trigger] self.origin@[j]
                <= COORD_LIMIT
        &&& forall|j: int|
            0 <= j < self.direction@.len() ==> -COORD_LIMIT <= #[trigger] self.direction@[j]
                <= COORD_LIMIT
        &&& exists|j: int| 0 <= j < self.direction@.len() && self.direction@[j] != 0
    }
}

/// Numerator of coordinate `j` of `curve(t) - origin`, over the common
/// denominator `pow(td, degree)`.
pub open spec fn rel_num(g: Seq<Seq<int>>, o: Seq<int>, tn: int, td: int, j: int) -> int {
    bez_sum(g, tn, td, j, g.len()) - o[j] * pow(td, (g.len() - 1) as nat)
}

/// The whole relative vector `curve(t) - origin`, as numerators.
pub open spec fn rel_seq(g: Seq<Seq<int>>, o: Seq<int>, tn: int, td: int) -> Seq<int> {
    Seq::new(o.len(), |j: int| rel_num(g, o, tn, td, j))
}

/// Coordinates `j` and `k` of the curve point stand to each other as the
/// ray's direction prescribes: the two-by-two minor vanishes.
pub open spec fn cross_ok(g: Seq<Seq<int>>, ray: Ray, tn: int, td: int, j: int, k: int) -> bool {
    rel_num(g, ray.origin_ints(), tn, td, j) * ray.direction_ints()[k] == rel_num(
        g,
        ray.origin_ints(),
        tn,
        td,
        k,
    ) * ray.direction_ints()[j]
}

/// The curve point at `tn / td` lies on the carrier line of the ray.
pub open spec fn on_ray_line(g: Seq<Seq<int>>, ray: Ray, tn: int, td: int) -> bool {
    forall|j: int, k: int|
        0 <= j < ray.dim() && 0 <= k < ray.dim() ==> #[trigger] cross_ok(g, ray, tn, td, j, k)
}

/// Numerator of the signed ray parameter of the curve point, over the
/// positive denominator `pow(td, degree) * dot(d, d)`.
pub open spec fn ray_dot(g: Seq<Seq<int>>, ray: Ray, tn: int, td: int) -> int {
    dot(rel_seq(g, ray.origin_ints(), tn, td), ray.direction_ints())
}

/// The curve point at `tn / td` lies on the ray: on its carrier line, and
/// not behind its origin.
pub open spec fn is_hit(g: Seq<Seq<int>>, ray: Ray, tn: int, td: int) -> bool {
    on_ray_line(g, ray, tn, td) && ray_dot(g, ray, tn, td) >= 0
}

/// The derivative vanishes at `tn / td`: no tangent direction exists there.
pub open spec fn degenerate_at(g: Seq<Seq<int>>, tn: int, td: int) -> bool {
    forall|j: int|
        0 <= j < g[0].len() ==> #[trigger] tan_sum(g, tn, td, j, (g.len() - 1) as nat) == 0
}

/// The derivative vector at `tn / td`, as numerators over `pow(td, degree - 1)`.
pub open spec fn tangent_seq(g: Seq<Seq<int>>, tn: int, td: int) -> Seq<int> {
    Seq::new(g[0].len(), |j: int| tan_sum(g, tn, td, j, (g.len() - 1) as nat))
}

/// One reflection of a ray by the mirror: where it met the curve, how far
/// along the ray, and the linear transform its direction undergoes there.
/// `distance_num / distance_den` is the exact signed ray parameter;
/// `transform_num / transform_den` is the exact reflection matrix.
pub struct Reflection {
    pub t_num: u32,
    pub distance_num: i128,
    pub distance_den: i128,
    pub transform_num: Vec<Vec<i128>>,
    pub transform_den: i128,
}

/// Rebuilding a mirror from its serialized control points gives a mirror
/// with the same control polygon, hence the same curve: every Bernstein sum
/// and every derivative sum agree at every parameter, so `calculate_point`
/// and `calculate_tangent` answer alike on the two mirrors.
pub proof fn lemma_serialization_round_trip(m: BezierMirror, m2: BezierMirror)
    requires
        m.wf(),
        m2.control_points@.len() == m.control_points@.len(),
        forall|i: int|
            0 <= i < m.control_points@.len() ==> #[trigger] m2.control_points@[i]@
                == m.control_points@[i]@,
    ensures
        m2.wf(),
        m2.grid() == m.grid(),
        forall|tn: int, td: int, j: int, k: nat|
            bez_sum(#[trigger] m2.grid(), tn, td, j, k) == bez_sum(m.grid(), tn, td, j, k),
        forall|tn: int, td: int, j: int, k: nat|
            tan_sum(#[trigger] m2.grid(), tn, td, j, k) == tan_sum(m.grid(), tn, td, j, k),
{
    assert(m2.dim() == m.dim());
    assert forall|i: int| 0 <= i < m2.grid().len() implies #[trigger] m2.grid()[i] =~= m.grid()[i] by {
    }
    assert(m2.grid() =~~= m.grid());
}

} // verus!
