//! The exact algebra behind the renderer's rigid motions.
//!
//! An isometry of the unit 3-sphere is a pair of unit quaternions
//! `(left, right)` acting on a homogeneous 4-vector `v` (read as the
//! quaternion with scalar part `w`) by `v -> left * v * right`. The renderer
//! computes with floating-point quaternions; this module states the algebra
//! they approximate over exact quaternions with integer coefficients. Every
//! law below is a polynomial identity in the coefficients, so it holds over
//! any commutative ring, the reals included.
//!
//! Composition keeps the left factors in order and reverses the right ones,
//! `compose(a, b) = (a.left * b.left, b.right * a.right)`, which is what
//! makes `compose(a, b)` act as `b` followed by `a`.

use vstd::prelude::*;

verus! {

/// A quaternion `x i + y j + z k + w`.
pub struct Quaternion {
    pub x: int,
    pub y: int,
    pub z: int,
    pub w: int,
}

/// A pair of quaternions acting by `v -> left * v * right`.
pub struct QuaternionPair {
    pub left: Quaternion,
    pub right: Quaternion,
}

/// The pole `W = (0, 0, 0, 1)`, which is also the unit quaternion.
pub open spec fn pole() -> Quaternion {
    Quaternion { x: 0, y: 0, z: 0, w: 1 }
}

/// The Hamilton product `a * b`.
pub open spec fn qmul(a: Quaternion, b: Quaternion) -> Quaternion {
    Quaternion {
        x: a.w * b.x + a.x * b.w + a.y * b.z - a.z * b.y,
        y: a.w * b.y - a.x * b.z + a.y * b.w + a.z * b.x,
        z: a.w * b.z + a.x * b.y - a.y * b.x + a.z * b.w,
        w: a.w * b.w - a.x * b.x - a.y * b.y - a.z * b.z,
    }
}

pub open spec fn qconj(q: Quaternion) -> Quaternion {
    Quaternion { x: -q.x, y: -q.y, z: -q.z, w: q.w }
}

/// The quadratic form `x² + y² + z² + w²`.
pub open spec fn norm_sq(q: Quaternion) -> int {
    q.x * q.x + q.y * q.y + q.z * q.z + q.w * q.w
}

pub open spec fn identity() -> QuaternionPair {
    QuaternionPair { left: pole(), right: pole() }
}

/// Both factors have unit length.
pub open spec fn is_unit(a: QuaternionPair) -> bool {
    norm_sq(a.left) == 1 && norm_sq(a.right) == 1
}

/// The rotation about the pole given by the unit quaternion `q`.
pub open spec fn from_rotation(q: Quaternion) -> QuaternionPair {
    QuaternionPair { left: q, right: qconj(q) }
}

/// Conjugates each factor in place; the inverse of a unit pair.
pub open spec fn conjugate(a: QuaternionPair) -> QuaternionPair {
    QuaternionPair { left: qconj(a.left), right: qconj(a.right) }
}

/// `b` first, then `a`.
pub open spec fn compose(a: QuaternionPair, b: QuaternionPair) -> QuaternionPair {
    QuaternionPair { left: qmul(a.left, b.left), right: qmul(b.right, a.right) }
}

/// The image of `v` under `a`.
pub open spec fn action(a: QuaternionPair, v: Quaternion) -> Quaternion {
    qmul(qmul(a.left, v), a.right)
}

proof fn lemma_qmul_scale_left(a: Quaternion, b: Quaternion, t: int)
    ensures
        qmul(a, b).x * t == a.w * b.x * t + a.x * b.w * t + a.y * b.z * t - a.z * b.y * t,
        qmul(a, b).y * t == a.w * b.y * t - a.x * b.z * t + a.y * b.w * t + a.z * b.x * t,
        qmul(a, b).z * t == a.w * b.z * t + a.x * b.y * t - a.y * b.x * t + a.z * b.w * t,
        qmul(a, b).w * t == a.w * b.w * t - a.x * b.x * t - a.y * b.y * t - a.z * b.z * t,
{
    assert((a.w * b.x + a.x * b.w + a.y * b.z - a.z * b.y) * t == a.w * b.x * t + a.x * b.w * t + a.y * b.z * t - a.z * b.y * t) by (nonlinear_arith);
    assert((a.w * b.y - a.x * b.z + a.y * b.w + a.z * b.x) * t == a.w * b.y * t - a.x * b.z * t + a.y * b.w * t + a.z * b.x * t) by (nonlinear_arith);
    assert((a.w * b.z + a.x * b.y - a.y * b.x + a.z * b.w) * t == a.w * b.z * t + a.x * b.y * t - a.y * b.x * t + a.z * b.w * t) by (nonlinear_arith);
    assert((a.w * b.w - a.x * b.x - a.y * b.y - a.z * b.z) * t == a.w * b.w * t - a.x * b.x * t - a.y * b.y * t - a.z * b.z * t) by (nonlinear_arith);
}

proof fn lemma_qmul_scale_right(t: int, b: Quaternion, c: Quaternion)
    ensures
        t * qmul(b, c).x == t * (b.w * c.x) + t * (b.x * c.w) + t * (b.y * c.z) - t * (b.z * c.y),
        t * qmul(b, c).y == t * (b.w * c.y) - t * (b.x * c.z) + t * (b.y * c.w) + t * (b.z * c.x),
        t * qmul(b, c).z == t * (b.w * c.z) + t * (b.x * c.y) - t * (b.y * c.x) + t * (b.z * c.w),
        t * qmul(b, c).w == t * (b.w * c.w) - t * (b.x * c.x) - t * (b.y * c.y) - t * (b.z * c.z),
{
    assert(t * (b.w * c.x + b.x * c.w + b.y * c.z - b.z * c.y) == t * (b.w * c.x) + t * (b.x * c.w) + t * (b.y * c.z) - t * (b.z * c.y)) by (nonlinear_arith);
    assert(t * (b.w * c.y - b.x * c.z + b.y * c.w + b.z * c.x) == t * (b.w * c.y) - t * (b.x * c.z) + t * (b.y * c.w) + t * (b.z * c.x)) by (nonlinear_arith);
    assert(t * (b.w * c.z + b.x * c.y - b.y * c.x + b.z * c.w) == t * (b.w * c.z) + t * (b.x * c.y) - t * (b.y * c.x) + t * (b.z * c.w)) by (nonlinear_arith);
    assert(t * (b.w * c.w - b.x * c.x - b.y * c.y - b.z * c.z) == t * (b.w * c.w) - t * (b.x * c.x) - t * (b.y * c.y) - t * (b.z * c.z)) by (nonlinear_arith);
}

/// Quaternion multiplication is associative.
pub proof fn lemma_qmul_associative(a: Quaternion, b: Quaternion, c: Quaternion)
    ensures
        qmul(qmul(a, b), c) == qmul(a, qmul(b, c)),
{
    lemma_qmul_scale_left(a, b, c.x);
    lemma_qmul_scale_left(a, b, c.y);
    lemma_qmul_scale_left(a, b, c.z);
    lemma_qmul_scale_left(a, b, c.w);
    lemma_qmul_scale_right(a.x, b, c);
    lemma_qmul_scale_right(a.y, b, c);
    lemma_qmul_scale_right(a.z, b, c);
    lemma_qmul_scale_right(a.w, b, c);
    assert forall|x: int, y: int, z: int| #[trigger] (x * (y * z)) == x * y * z by {
        vstd::arithmetic::mul::lemma_mul_is_associative(x, y, z);
    }
}

/// Composition of pairs is associative.
pub proof fn lemma_compose_associative(a: QuaternionPair, b: QuaternionPair, c: QuaternionPair)
    ensures
        compose(compose(a, b), c) == compose(a, compose(b, c)),
{
    lemma_qmul_associative(a.left, b.left, c.left);
    lemma_qmul_associative(c.right, b.right, a.right);
}

/// `compose(a, b)` moves a point as `b` does and then `a` does.
pub proof fn lemma_compose_action(a: QuaternionPair, b: QuaternionPair, v: Quaternion)
    ensures
        action(compose(a, b), v) == action(a, action(b, v)),
{
    let moved = qmul(b.left, v);
    lemma_qmul_associative(a.left, b.left, v);
    lemma_qmul_associative(qmul(a.left, moved), b.right, a.right);
    lemma_qmul_associative(a.left, moved, b.right);
}

/// `q * conj(q)` is the real number `|q|²`.
pub proof fn lemma_qmul_conj(q: Quaternion)
    ensures
        qmul(q, qconj(q)) == (Quaternion { x: 0, y: 0, z: 0, w: norm_sq(q) }),
        qmul(qconj(q), q) == (Quaternion { x: 0, y: 0, z: 0, w: norm_sq(q) }),
{
    assert(q.w * (-q.x) + q.x * q.w + q.y * (-q.z) - q.z * (-q.y) == 0) by (nonlinear_arith);
    assert(q.w * (-q.y) - q.x * (-q.z) + q.y * q.w + q.z * (-q.x) == 0) by (nonlinear_arith);
    assert(q.w * (-q.z) + q.x * (-q.y) - q.y * (-q.x) + q.z * q.w == 0) by (nonlinear_arith);
    assert(q.w * q.w - q.x * (-q.x) - q.y * (-q.y) - q.z * (-q.z) == q.x * q.x + q.y * q.y + q.z * q.z + q.w * q.w) by (nonlinear_arith);
    assert(q.w * q.x + (-q.x) * q.w + (-q.y) * q.z - (-q.z) * q.y == 0) by (nonlinear_arith);
    assert(q.w * q.y - (-q.x) * q.z + (-q.y) * q.w + (-q.z) * q.x == 0) by (nonlinear_arith);
    assert(q.w * q.z + (-q.x) * q.y - (-q.y) * q.x + (-q.z) * q.w == 0) by (nonlinear_arith);
    assert(q.w * q.w - (-q.x) * q.x - (-q.y) * q.y - (-q.z) * q.z == q.x * q.x + q.y * q.y + q.z * q.z + q.w * q.w) by (nonlinear_arith);
}

/// `s` read as a quaternion with no vector part.
pub open spec fn scalar(s: int) -> Quaternion {
    Quaternion { x: 0, y: 0, z: 0, w: s }
}

/// `q` with every coefficient multiplied by `s`.
pub open spec fn scale(q: Quaternion, s: int) -> Quaternion {
    Quaternion { x: q.x * s, y: q.y * s, z: q.z * s, w: q.w * s }
}

/// A rotation `(q, conj(q))` sends the pole to `|q|²` times the pole, so a
/// pure rotation (`|q| = 1`) fixes the pole.
pub proof fn lemma_rotation_fixes_pole(q: Quaternion)
    ensures
        action(from_rotation(q), pole()) == scalar(norm_sq(q)),
        norm_sq(q) == 1 ==> action(from_rotation(q), pole()) == pole(),
{
    assert(qmul(q, pole()) == q);
    lemma_qmul_conj(q);
}

/// A pair composed with its conjugate has `|left|²` and `|right|²` as its
/// factors, so for a unit pair the conjugate (its inverse) undoes it.
pub proof fn lemma_compose_inverse(a: QuaternionPair)
    ensures
        compose(a, conjugate(a)) == (QuaternionPair { left: scalar(norm_sq(a.left)), right: scalar(norm_sq(a.right)) }),
        is_unit(a) ==> compose(a, conjugate(a)) == identity(),
{
    lemma_qmul_conj(a.left);
    lemma_qmul_conj(a.right);
}

/// The conjugate of a product is the product of the conjugates, reversed.
pub proof fn lemma_qconj_qmul(a: Quaternion, b: Quaternion)
    ensures
        qconj(qmul(a, b)) == qmul(qconj(b), qconj(a)),
{
    assert(-(a.w * b.x + a.x * b.w + a.y * b.z - a.z * b.y) == b.w * (-a.x) + (-b.x) * a.w + (-b.y) * (-a.z) - (-b.z) * (-a.y)) by (nonlinear_arith);
    assert(-(a.w * b.y - a.x * b.z + a.y * b.w + a.z * b.x) == b.w * (-a.y) - (-b.x) * (-a.z) + (-b.y) * a.w + (-b.z) * (-a.x)) by (nonlinear_arith);
    assert(-(a.w * b.z + a.x * b.y - a.y * b.x + a.z * b.w) == b.w * (-a.z) + (-b.x) * (-a.y) - (-b.y) * (-a.x) + (-b.z) * a.w) by (nonlinear_arith);
    assert(a.w * b.w - a.x * b.x - a.y * b.y - a.z * b.z == b.w * a.w - (-b.x) * (-a.x) - (-b.y) * (-a.y) - (-b.z) * (-a.z)) by (nonlinear_arith);
}

proof fn lemma_qmul_real(a: Quaternion, s: int)
    ensures
        qmul(a, scalar(s)) == scale(a, s),
{
}

proof fn lemma_qmul_scale(a: Quaternion, s: int, c: Quaternion)
    ensures
        qmul(scale(a, s), c) == scale(qmul(a, c), s),
{
    lemma_qmul_scale_left(a, c, s);
    assert forall|x: int, y: int, z: int| #[trigger] ((x * z) * y) == x * y * z by {
        vstd::arithmetic::mul::lemma_mul_is_associative(x, z, y);
        vstd::arithmetic::mul::lemma_mul_is_commutative(z, y);
        vstd::arithmetic::mul::lemma_mul_is_associative(x, y, z);
    }
}

/// The quadratic form is multiplicative: `|a * b|² = |a|² |b|²`.
pub proof fn lemma_norm_sq_multiplicative(a: Quaternion, b: Quaternion)
    ensures
        norm_sq(qmul(a, b)) == norm_sq(a) * norm_sq(b),
{
    let ab = qmul(a, b);
    lemma_qmul_conj(ab);
    lemma_qconj_qmul(a, b);
    lemma_qmul_associative(ab, qconj(b), qconj(a));
    lemma_qmul_associative(a, b, qconj(b));
    lemma_qmul_conj(b);
    lemma_qmul_real(a, norm_sq(b));
    lemma_qmul_scale(a, norm_sq(b), qconj(a));
    lemma_qmul_conj(a);
    assert(qmul(ab, qconj(ab)) == scale(scalar(norm_sq(a)), norm_sq(b)));
}

/// The action of a pair scales the quadratic form by `|left|² |right|²`, so
/// a unit pair maps the unit 3-sphere to itself.
pub proof fn lemma_action_norm(a: QuaternionPair, v: Quaternion)
    ensures
        norm_sq(action(a, v)) == norm_sq(a.left) * norm_sq(v) * norm_sq(a.right),
        is_unit(a) ==> norm_sq(action(a, v)) == norm_sq(v),
{
    lemma_norm_sq_multiplicative(a.left, v);
    lemma_norm_sq_multiplicative(qmul(a.left, v), a.right);
}

} // verus!
