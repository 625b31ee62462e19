//! Exact vector algebra: dot products over integer coordinate sequences and
//! the reflection transform across a tangent axis.
//!
//! A direction is a sequence of integer numerators over a common denominator.
//! The reflection of `v` across the axis spanned by `w` is
//! `2 (v . w) w / (w . w) - v`; to stay integral every image here carries the
//! extra factor `dot(w, w)`, which is the denominator of the transform.

use crate::curve::{COORD_LIMIT, TAN_LIMIT};
use vstd::prelude::*;

verus! {

/// Upper bound on the spatial dimension.
pub const DIM_LIMIT: usize = 32;

/// A sequence of machine words, read as mathematical integers.
pub open spec fn ints_of_i64(s: Seq<i64>) -> Seq<int> {
    Seq::new(s.len(), |j: int| s[j] as int)
}

/// A sequence of wide machine words, read as mathematical integers.
pub open spec fn ints_of_i128(s: Seq<i128>) -> Seq<int> {
    Seq::new(s.len(), |j: int| s[j] as int)
}

/// Dot product of two coordinate sequences, summed from the back.
pub open spec fn dot(a: Seq<int>, b: Seq<int>) -> int
    decreases a.len(),
{
    if a.len() == 0 || b.len() == 0 {
        0
    } else {
        dot(a.drop_last(), b.drop_last()) + a.last() * b.last()
    }
}

/// The linear combination `x * a + y * b`, taken coordinate by coordinate.
pub open spec fn combo(x: int, a: Seq<int>, y: int, b: Seq<int>) -> Seq<int> {
    Seq::new(a.len(), |i: int| x * a[i] + y * b[i])
}

/// The image of `v` under the reflection across the axis spanned by `w`,
/// scaled by the denominator `dot(w, w)`.
pub open spec fn reflect_vec(w: Seq<int>, v: Seq<int>) -> Seq<int> {
    Seq::new(v.len(), |i: int| 2 * dot(v, w) * w[i] - dot(w, w) * v[i])
}

/// Entry `(i, j)` of the reflection matrix `2 w w^T - (w . w) I`,
/// the numerator of the transform over the denominator `dot(w, w)`.
pub open spec fn reflection_entry(w: Seq<int>, i: int, j: int) -> int {
    2 * w[i] * w[j] - if i == j {
        dot(w, w)
    } else {
        0
    }
}

/// Row `i` of the reflection matrix.
pub open spec fn reflection_row(w: Seq<int>, i: int) -> Seq<int> {
    Seq::new(w.len(), |j: int| reflection_entry(w, i, j))
}

/// The coordinate sequence that is `1` at `i` and `0` elsewhere.
pub open spec fn unit_axis(len: nat, i: int) -> Seq<int> {
    Seq::new(len, |j: int| if j == i { 1int } else { 0int })
}

/// The dot product does not depend on the order of its arguments.
pub proof fn lemma_dot_symmetric(a: Seq<int>, b: Seq<int>)
    ensures
        dot(a, b) == dot(b, a),
    decreases a.len(),
{
    if a.len() != 0 && b.len() != 0 {
        lemma_dot_symmetric(a.drop_last(), b.drop_last());
        assert(a.last() * b.last() == b.last() * a.last()) by (nonlinear_arith);
    }
}

/// The dot product is linear in its first argument.
pub proof fn lemma_dot_linear(a: Seq<int>, b: Seq<int>, c: Seq<int>, x: int, y: int)
    requires
        a.len() == b.len(),
        a.len() == c.len(),
    ensures
        dot(combo(x, a, y, b), c) == x * dot(a, c) + y * dot(b, c),
    decreases a.len(),
{
    if a.len() == 0 {
        assert(combo(x, a, y, b).len() == 0);
        assert(x * 0 + y * 0 == 0) by (nonlinear_arith);
    } else {
        let s = combo(x, a, y, b);
        assert(s.drop_last() =~= combo(x, a.drop_last(), y, b.drop_last()));
        lemma_dot_linear(a.drop_last(), b.drop_last(), c.drop_last(), x, y);
        let da = dot(a.drop_last(), c.drop_last());
        let db = dot(b.drop_last(), c.drop_last());
        let an = a.last();
        let bn = b.last();
        let cn = c.last();
        assert(dot(s, c) == (x * da + y * db) + (x * an + y * bn) * cn);
        assert((x * da + y * db) + (x * an + y * bn) * cn == x * (da + an * cn) + y * (db + bn
            * cn)) by (nonlinear_arith);
        assert(dot(a, c) == da + an * cn);
        assert(dot(b, c) == db + bn * cn);
    }
}

/// A dot product against a unit axis picks out one coordinate.
pub proof fn lemma_dot_unit_axis(v: Seq<int>, i: int)
    requires
        0 <= i < v.len(),
    ensures
        dot(unit_axis(v.len(), i), v) == v[i],
    decreases v.len(),
{
    let u = unit_axis(v.len(), i);
    if i == v.len() - 1 {
        lemma_dot_zero_left(u.drop_last(), v.drop_last());
        assert(u.drop_last() =~= Seq::new((v.len() - 1) as nat, |j: int| 0int));
        assert(1 * v.last() == v.last()) by (nonlinear_arith);
    } else {
        assert(u.drop_last() =~= unit_axis((v.len() - 1) as nat, i));
        lemma_dot_unit_axis(v.drop_last(), i);
        assert(0 * v.last() == 0) by (nonlinear_arith);
    }
}

/// A dot product with an all-zero left argument vanishes.
pub proof fn lemma_dot_zero_left(z: Seq<int>, v: Seq<int>)
    requires
        forall|j: int| 0 <= j < z.len() ==> z[j] == 0,
    ensures
        dot(z, v) == 0,
    decreases z.len(),
{
    if z.len() != 0 && v.len() != 0 {
        lemma_dot_zero_left(z.drop_last(), v.drop_last());
        assert(0 * v.last() == 0) by (nonlinear_arith);
    }
}

/// The dot product of a sequence with itself is never negative.
pub proof fn lemma_dot_self_nonneg(a: Seq<int>)
    ensures
        dot(a, a) >= 0,
    decreases a.len(),
{
    if a.len() != 0 {
        lemma_dot_self_nonneg(a.drop_last());
        assert(a.last() * a.last() >= 0) by (nonlinear_arith);
    }
}

/// The dot product of a sequence with itself is positive as soon as one
/// coordinate is not zero.
pub proof fn lemma_dot_self_pos(a: Seq<int>, i: int)
    requires
        0 <= i < a.len(),
        a[i] != 0,
    ensures
        dot(a, a) > 0,
    decreases a.len(),
{
    if i == a.len() - 1 {
        lemma_dot_self_nonneg(a.drop_last());
        assert(a.last() * a.last() > 0) by (nonlinear_arith)
            requires
                a.last() != 0,
        ;
    } else {
        lemma_dot_self_pos(a.drop_last(), i);
        assert(a.last() * a.last() >= 0) by (nonlinear_arith);
    }
}

/// A reflected vector is a linear combination of the axis and the argument.
proof fn lemma_reflect_is_combo(w: Seq<int>, v: Seq<int>)
    requires
        w.len() == v.len(),
    ensures
        reflect_vec(w, v) == combo(2 * dot(v, w), w, -dot(w, w), v),
{
    let c = combo(2 * dot(v, w), w, -dot(w, w), v);
    assert forall|i: int| 0 <= i < v.len() implies reflect_vec(w, v)[i] == c[i] by {
        assert(2 * dot(v, w) * w[i] - dot(w, w) * v[i] == 2 * dot(v, w) * w[i] + (-dot(w, w))
            * v[i]) by (nonlinear_arith);
    }
    assert(reflect_vec(w, v) =~= c);
}

/// Applying row `i` of the reflection matrix to `v` gives coordinate `i`
/// of the reflected vector: the matrix and the reflection formula agree.
pub proof fn lemma_reflection_matrix_applies(w: Seq<int>, v: Seq<int>, i: int)
    requires
        w.len() == v.len(),
        0 <= i < w.len(),
    ensures
        dot(reflection_row(w, i), v) == reflect_vec(w, v)[i],
{
    let u = unit_axis(w.len(), i);
    assert(reflection_row(w, i) =~= combo(2 * w[i], w, -dot(w, w), u));
    lemma_dot_linear(w, u, v, 2 * w[i], -dot(w, w));
    lemma_dot_unit_axis(v, i);
    lemma_dot_symmetric(w, v);
    assert(2 * w[i] * dot(v, w) + (-dot(w, w)) * v[i] == 2 * dot(v, w) * w[i] - dot(w, w)
        * v[i]) by (nonlinear_arith);
}

/// Reflecting twice across the same axis gives the original vector back,
/// scaled by the square of the denominator `dot(w, w)`: the reflection
/// transform is an involution.
pub proof fn lemma_reflection_involution(w: Seq<int>, v: Seq<int>)
    requires
        w.len() == v.len(),
    ensures
        forall|i: int|
            0 <= i < v.len() ==> #[trigger] reflect_vec(w, reflect_vec(w, v))[i] == dot(w, w) * dot(
                w,
                w,
            ) * v[i],
{
    let p = dot(w, w);
    let q = dot(v, w);
    let r1 = reflect_vec(w, v);
    lemma_reflect_is_combo(w, v);
    lemma_dot_linear(w, v, w, 2 * q, -p);
    assert(dot(r1, w) == 2 * q * dot(w, w) + (-p) * dot(v, w));
    assert(2 * q * p + (-p) * q == p * q) by (nonlinear_arith);
    assert(dot(r1, w) == p * q);
    assert forall|i: int| 0 <= i < v.len() implies #[trigger] reflect_vec(w, r1)[i] == p * p
        * v[i] by {
        assert(reflect_vec(w, r1)[i] == 2 * dot(r1, w) * w[i] - p * r1[i]);
        assert(r1[i] == 2 * q * w[i] - p * v[i]);
        assert(2 * (p * q) * w[i] - p * (2 * q * w[i] - p * v[i]) == p * p * v[i])
            by (nonlinear_arith);
    }
}

/// Reflection preserves length: the squared norm of the reflected vector
/// equals the squared norm of `v`, scaled by the square of the denominator
/// `dot(w, w)`.  The transform is orthogonal.
pub proof fn lemma_reflection_orthogonal(w: Seq<int>, v: Seq<int>)
    requires
        w.len() == v.len(),
    ensures
        dot(reflect_vec(w, v), reflect_vec(w, v)) == dot(w, w) * dot(w, w) * dot(v, v),
{
    let p = dot(w, w);
    let q = dot(v, w);
    let r1 = reflect_vec(w, v);
    lemma_reflect_is_combo(w, v);
    lemma_dot_linear(w, v, r1, 2 * q, -p);
    assert(dot(r1, r1) == 2 * q * dot(w, r1) + (-p) * dot(v, r1));
    lemma_dot_symmetric(w, r1);
    lemma_dot_symmetric(v, r1);
    lemma_dot_linear(w, v, w, 2 * q, -p);
    lemma_dot_linear(w, v, v, 2 * q, -p);
    lemma_dot_symmetric(w, v);
    assert(dot(r1, w) == 2 * q * p + (-p) * q);
    assert(dot(r1, v) == 2 * q * q + (-p) * dot(v, v));
    assert(2 * q * (2 * q * p + (-p) * q) + (-p) * (2 * q * q + (-p) * dot(v, v)) == p * p * dot(
        v,
        v,
    )) by (nonlinear_arith);
}

/// Extending both prefixes by one coordinate adds one product to the dot.
pub proof fn lemma_dot_take_extend(a: Seq<int>, b: Seq<int>, i: int)
    requires
        0 <= i < a.len(),
        i < b.len(),
    ensures
        dot(a.take(i + 1), b.take(i + 1)) == dot(a.take(i), b.take(i)) + a[i] * b[i],
{
    let ta = a.take(i + 1);
    let tb = b.take(i + 1);
    assert(ta.drop_last() =~= a.take(i));
    assert(tb.drop_last() =~= b.take(i));
    assert(dot(ta, tb) == dot(ta.drop_last(), tb.drop_last()) + ta.last() * tb.last());
}

/// The full prefix is the sequence itself.
pub proof fn lemma_dot_take_full(a: Seq<int>, b: Seq<int>)
    requires
        a.len() == b.len(),
    ensures
        dot(a.take(a.len() as int), b.take(b.len() as int)) == dot(a, b),
{
    assert(a.take(a.len() as int) =~= a);
    assert(b.take(b.len() as int) =~= b);
}

/// A dot product against small prefixes stays small.
proof fn lemma_dot_take_bound(a: Seq<int>, b: Seq<int>, i: int, ba: int, bb: int)
    requires
        0 <= i <= a.len(),
        i <= b.len(),
        0 <= ba,
        0 <= bb,
        forall|j: int| 0 <= j < a.len() ==> -ba <= #[trigger] a[j] <= ba,
        forall|j: int| 0 <= j < b.len() ==> -bb <= #[trigger] b[j] <= bb,
    ensures
        -(i * ba * bb) <= dot(a.take(i), b.take(i)) <= i * ba * bb,
    decreases i,
{
    if i == 0 {
        assert(a.take(0) =~= Seq::<int>::empty());
        assert(i * ba * bb == 0) by (nonlinear_arith)
            requires
                i == 0,
        ;
    } else {
        lemma_dot_take_bound(a, b, i - 1, ba, bb);
        lemma_dot_take_extend(a, b, i - 1);
        assert(-(ba * bb) <= a[i - 1] * b[i - 1] <= ba * bb) by (nonlinear_arith)
            requires
                -ba <= a[i - 1] <= ba,
                -bb <= b[i - 1] <= bb,
                0 <= ba,
                0 <= bb,
        ;
        assert(i * ba * bb == (i - 1) * ba * bb + ba * bb) by (nonlinear_arith);
    }
}

/// Exact dot product of a wide vector against a narrow one.
pub fn dot_product(a: &Vec<i128>, b: &Vec<i64>, abound: i128) -> (r: i128)
    requires
        a@.len() == b@.len(),
        a@.len() <= DIM_LIMIT,
        0 <= abound,
        (DIM_LIMIT as int) * (abound as int) * (COORD_LIMIT as int) <= 0x4000_0000_0000_0000_0000_0000_0000_0000,
        forall|j: int| 0 <= j < a@.len() ==> -abound <= #[trigger] a@[j] <= abound,
        forall|j: int| 0 <= j < b@.len() ==> -COORD_LIMIT <= #[trigger] b@[j] <= COORD_LIMIT,
    ensures
        r as int == dot(ints_of_i128(a@), ints_of_i64(b@)),
        -((a@.len() as int) * (abound as int) * (COORD_LIMIT as int)) <= r as int,
        r as int <= (a@.len() as int) * (abound as int) * (COORD_LIMIT as int),
{
    let ghost ai = ints_of_i128(a@);
    let ghost bi = ints_of_i64(b@);
    let mut acc: i128 = 0;
    let mut j: usize = 0;
    proof {
        assert(ai.take(0) =~= Seq::<int>::empty());
    }
    while j < a.len()
        invariant
            a@.len() == b@.len(),
            a@.len() <= DIM_LIMIT,
            0 <= abound,
            (DIM_LIMIT as int) * (abound as int) * (COORD_LIMIT as int)
                <= 0x4000_0000_0000_0000_0000_0000_0000_0000,
            forall|j2: int| 0 <= j2 < a@.len() ==> -abound <= #[trigger] a@[j2] <= abound,
            forall|j2: int| 0 <= j2 < b@.len() ==> -COORD_LIMIT <= #[trigger] b@[j2] <= COORD_LIMIT,
            ai == ints_of_i128(a@),
            bi == ints_of_i64(b@),
            j <= a@.len(),
            acc as int == dot(ai.take(j as int), bi.take(j as int)),
            -((j as int) * (abound as int) * (COORD_LIMIT as int)) <= acc as int,
            acc as int <= (j as int) * (abound as int) * (COORD_LIMIT as int),
        decreases a@.len() - j,
    {
        proof {
            lemma_dot_take_extend(ai, bi, j as int);
            assert(-((abound as int) * (COORD_LIMIT as int)) <= ai[j as int] * bi[j as int] <= (
            abound as int) * (COORD_LIMIT as int)) by (nonlinear_arith)
                requires
                    -abound <= ai[j as int] <= abound,
                    -(COORD_LIMIT as int) <= bi[j as int] <= COORD_LIMIT as int,
                    0 <= abound,
                    0 < COORD_LIMIT,
            ;
            assert((j + 1) * (abound as int) * (COORD_LIMIT as int) == (j as int) * (abound as int)
                * (COORD_LIMIT as int) + (abound as int) * (COORD_LIMIT as int))
                by (nonlinear_arith);
            assert((j + 1) * (abound as int) * (COORD_LIMIT as int) <= (DIM_LIMIT as int) * (
            abound as int) * (COORD_LIMIT as int)) by (nonlinear_arith)
                requires
                    j + 1 <= DIM_LIMIT,
                    0 <= abound,
                    0 < COORD_LIMIT,
            ;
            assert(ai[j as int] * bi[j as int] == (a@[j as int] as int) * (b@[j as int] as int));
        }
        acc = acc + a[j] * (b[j] as i128);
        j = j + 1;
    }
    proof {
        lemma_dot_take_full(ai, bi);
    }
    acc
}

/// The reflection transform across the axis `w`: the matrix
/// `2 w w^T - (w . w) I` of numerators over the denominator `dot(w, w)`.
/// The axis must not be the zero vector; the denominator is then positive.
pub fn reflection_transform(w: &Vec<i64>) -> (r: (Vec<Vec<i128>>, i128))
    requires
        1 <= w@.len() <= DIM_LIMIT,
        forall|j: int| 0 <= j < w@.len() ==> -TAN_LIMIT <= #[trigger] (w@[j] as int) <= TAN_LIMIT,
        exists|j: int| 0 <= j < w@.len() && w@[j] != 0,
    ensures
        r.1 as int == dot(ints_of_i64(w@), ints_of_i64(w@)),
        r.1 > 0,
        r.0@.len() == w@.len(),
        forall|i: int| 0 <= i < w@.len() ==> #[trigger] r.0@[i]@.len() == w@.len(),
        forall|i: int, j: int|
            0 <= i < w@.len() && 0 <= j < w@.len() ==> #[trigger] (r.0@[i]@[j] as int)
                == reflection_entry(ints_of_i64(w@), i, j),
{
    let ghost wi = ints_of_i64(w@);
    let mut norm2: i128 = 0;
    let mut j: usize = 0;
    proof {
        assert(wi.take(0) =~= Seq::<int>::empty());
    }
    while j < w.len()
        invariant
            w@.len() <= DIM_LIMIT,
            forall|j2: int| 0 <= j2 < w@.len() ==> -TAN_LIMIT <= #[trigger] (w@[j2] as int)
                <= TAN_LIMIT,
            wi == ints_of_i64(w@),
            j <= w@.len(),
            norm2 as int == dot(wi.take(j as int), wi.take(j as int)),
            0 <= norm2 as int <= (j as int) * (TAN_LIMIT as int) * (TAN_LIMIT as int),
        decreases w@.len() - j,
    {
        proof {
            lemma_dot_take_extend(wi, wi, j as int);
            assert(0 <= wi[j as int] * wi[j as int] <= (TAN_LIMIT as int) * (TAN_LIMIT as int))
                by (nonlinear_arith)
                requires
                    -TAN_LIMIT <= wi[j as int] <= TAN_LIMIT,
            ;
            assert((j + 1) * (TAN_LIMIT as int) * (TAN_LIMIT as int) == (j as int) * (
            TAN_LIMIT as int) * (TAN_LIMIT as int) + (TAN_LIMIT as int) * (TAN_LIMIT as int))
                by (nonlinear_arith);
            assert((j + 1) * (TAN_LIMIT as int) * (TAN_LIMIT as int) <= (DIM_LIMIT as int) * (
            TAN_LIMIT as int) * (TAN_LIMIT as int)) by (nonlinear_arith)
                requires
                    j + 1 <= DIM_LIMIT,
            ;
        }
        norm2 = norm2 + (w[j] as i128) * (w[j] as i128);
        j = j + 1;
    }
    proof {
        lemma_dot_take_full(wi, wi);
        let jw = choose|j2: int| 0 <= j2 < w@.len() && w@[j2] != 0;
        lemma_dot_self_pos(wi, jw);
        assert((DIM_LIMIT as int) * (TAN_LIMIT as int) * (TAN_LIMIT as int) < i128::MAX as int);
    }
    let mut rows: Vec<Vec<i128>> = Vec::new();
    let mut i: usize = 0;
    while i < w.len()
        invariant
            w@.len() <= DIM_LIMIT,
            forall|j2: int| 0 <= j2 < w@.len() ==> -TAN_LIMIT <= #[trigger] (w@[j2] as int)
                <= TAN_LIMIT,
            wi == ints_of_i64(w@),
            norm2 as int == dot(wi, wi),
            0 <= norm2 as int <= (DIM_LIMIT as int) * (TAN_LIMIT as int) * (TAN_LIMIT as int),
            i <= w@.len(),
            rows@.len() == i,
            forall|i2: int| 0 <= i2 < i ==> #[trigger] rows@[i2]@.len() == w@.len(),
            forall|i2: int, j2: int|
                0 <= i2 < i && 0 <= j2 < w@.len() ==> #[trigger] (rows@[i2]@[j2] as int)
                    == reflection_entry(wi, i2, j2),
        decreases w@.len() - i,
    {
        let mut row: Vec<i128> = Vec::new();
        let mut j2: usize = 0;
        while j2 < w.len()
            invariant
                w@.len() <= DIM_LIMIT,
                forall|j3: int| 0 <= j3 < w@.len() ==> -TAN_LIMIT <= #[trigger] (w@[j3] as int)
                    <= TAN_LIMIT,
                wi == ints_of_i64(w@),
                norm2 as int == dot(wi, wi),
                0 <= norm2 as int <= (DIM_LIMIT as int) * (TAN_LIMIT as int) * (TAN_LIMIT as int),
                i < w@.len(),
                j2 <= w@.len(),
                row@.len() == j2,
                forall|j3: int|
                    0 <= j3 < j2 ==> #[trigger] (row@[j3] as int) == reflection_entry(wi, i as int, j3),
            decreases w@.len() - j2,
        {
            proof {
                let wa = w@[i as int] as int;
                let wb = w@[j2 as int] as int;
                assert(-((TAN_LIMIT as int) * (TAN_LIMIT as int)) <= wa * wb <= (TAN_LIMIT as int)
                    * (TAN_LIMIT as int)) by (nonlinear_arith)
                    requires
                        -TAN_LIMIT <= wa <= TAN_LIMIT,
                        -TAN_LIMIT <= wb <= TAN_LIMIT,
                ;
                assert(2 * wa * wb == 2 * (wa * wb)) by (nonlinear_arith);
            }
            let prod = (w[i] as i128) * (w[j2] as i128);
            let entry = if i == j2 {
                2 * prod - norm2
            } else {
                2 * prod
            };
            row.push(entry);
            j2 = j2 + 1;
        }
        rows.push(row);
        i = i + 1;
    }
    (rows, norm2)
}

} // verus!
