//! The rounded-up distance is a metric in the sense that matters to the
//! search: no detour is cheaper than the direct distance.

use vstd::prelude::*;
use crate::point::axis_gap_sq;
use crate::point::dist_sq;
use crate::point::travel_cost;
use crate::point::Point;
use crate::point::COST_PER_TICK;
use crate::route::route_cost;
use crate::sqrt::lemma_ceil_sqrt_exists;
use crate::sqrt::lemma_ceil_sqrt_least;
use crate::sqrt::lemma_square_order;

verus! {

/// The square of the length of the vector `(x, y, z)`.
pub open spec fn norm_sq(x: int, y: int, z: int) -> int {
    x * x + y * y + z * z
}

/// The inner product of two vectors.
pub open spec fn dot(x: int, y: int, z: int, u: int, v: int, w: int) -> int {
    x * u + y * v + z * w
}

/// The square of a sum of three terms.
proof fn lemma_square_of_sum(a: int, b: int, c: int)
    ensures
        (a + b + c) * (a + b + c) == a * a + b * b + c * c + 2 * (a * b) + 2 * (a * c) + 2 * (b
            * c),
{
    assert((a + b + c) * (a + b + c) == a * a + b * b + c * c + 2 * (a * b) + 2 * (a * c) + 2 * (b
        * c)) by (nonlinear_arith);
}

/// The square of a difference.
proof fn lemma_square_of_difference(a: int, b: int)
    ensures
        (a - b) * (a - b) == a * a - 2 * (a * b) + b * b,
        (a - b) * (a - b) >= 0,
{
    assert((a - b) * (a - b) == a * a - 2 * (a * b) + b * b && (a - b) * (a - b) >= 0)
        by (nonlinear_arith);
}

/// The product of two sums of three terms.
proof fn lemma_product_of_sums(a: int, b: int, c: int, d: int, e: int, f: int)
    ensures
        (a + b + c) * (d + e + f) == a * d + a * e + a * f + b * d + b * e + b * f + c * d + c * e
            + c * f,
{
    assert((a + b + c) * (d + e + f) == a * d + a * e + a * f + b * d + b * e + b * f + c * d + c
        * e + c * f) by (nonlinear_arith);
}

/// The factors of a product of two products can change places.
proof fn lemma_regroup(a: int, b: int, c: int, d: int)
    ensures
        (a * b) * (c * d) == (a * c) * (b * d),
        (a * b) * (c * d) == (a * d) * (c * b),
{
    assert((a * b) * (c * d) == (a * c) * (b * d) && (a * b) * (c * d) == (a * d) * (c * b))
        by (nonlinear_arith);
}

/// The inequality of Cauchy and Schwarz in three dimensions.
pub proof fn lemma_cauchy_schwarz(x: int, y: int, z: int, u: int, v: int, w: int)
    ensures
        dot(x, y, z, u, v, w) * dot(x, y, z, u, v, w) <= norm_sq(x, y, z) * norm_sq(u, v, w),
{
    // |a|^2 |b|^2 - (a . b)^2 is the squared length of the cross product.
    lemma_product_of_sums(x * x, y * y, z * z, u * u, v * v, w * w);
    lemma_square_of_sum(x * u, y * v, z * w);
    lemma_square_of_difference(x * v, y * u);
    lemma_square_of_difference(x * w, z * u);
    lemma_square_of_difference(y * w, z * v);
    lemma_regroup(x, x, u, u);
    lemma_regroup(y, y, v, v);
    lemma_regroup(z, z, w, w);
    lemma_regroup(x, x, v, v);
    lemma_regroup(x, x, w, w);
    lemma_regroup(y, y, u, u);
    lemma_regroup(y, y, w, w);
    lemma_regroup(z, z, u, u);
    lemma_regroup(z, z, v, v);
    lemma_regroup(x, v, y, u);
    lemma_regroup(x, w, z, u);
    lemma_regroup(y, w, z, v);
}

/// The triangle inequality on squares: if `p` bounds the length of one
/// vector and `q` that of another, `p + q` bounds the length of their sum.
pub proof fn lemma_triangle(p: nat, q: nat, x: int, y: int, z: int, u: int, v: int, w: int)
    requires
        p * p >= norm_sq(x, y, z),
        q * q >= norm_sq(u, v, w),
    ensures
        (p + q) * (p + q) >= norm_sq(x + u, y + v, z + w),
{
    let d = dot(x, y, z, u, v, w);
    let m = norm_sq(x, y, z);
    let n = norm_sq(u, v, w);
    lemma_cauchy_schwarz(x, y, z, u, v, w);
    lemma_square_of_difference(x, 0);
    lemma_square_of_difference(y, 0);
    lemma_square_of_difference(z, 0);
    lemma_square_of_difference(u, 0);
    lemma_square_of_difference(v, 0);
    lemma_square_of_difference(w, 0);
    assert(m >= 0 && n >= 0);
    let pp = p * p;
    let qq = q * q;
    assert(m * n <= pp * qq) by (nonlinear_arith)
        requires
            0 <= m <= pp,
            0 <= n <= qq,
    ;
    lemma_regroup(p as int, p as int, q as int, q as int);
    assert(d * d <= (p * q) * (p * q));
    let size: nat = if d < 0 {
        (-d) as nat
    } else {
        d as nat
    };
    assert(size * size == d * d) by (nonlinear_arith)
        requires
            size == d || size == -d,
    ;
    lemma_square_order(size, p * q);
    assert(d <= p * q);
    // Expand both sides and compare term by term.
    lemma_square_of_difference(p as int, -(q as int));
    lemma_square_of_difference(x, -u);
    lemma_square_of_difference(y, -v);
    lemma_square_of_difference(z, -w);
    assert(p * (-(q as int)) == -(p * q)) by (nonlinear_arith);
    assert((-(q as int)) * (-(q as int)) == q * q) by (nonlinear_arith);
    assert(x * (-u) == -(x * u) && (-u) * (-u) == u * u) by (nonlinear_arith);
    assert(y * (-v) == -(y * v) && (-v) * (-v) == v * v) by (nonlinear_arith);
    assert(z * (-w) == -(z * w) && (-w) * (-w) == w * w) by (nonlinear_arith);
    assert((p + q) * (p + q) == p * p + 2 * (p * q) + q * q);
    assert(norm_sq(x + u, y + v, z + w) == m + 2 * d + n);
}

/// Scaling a number scales its square by the square of the factor.
proof fn lemma_scaled_square(k: int, x: int)
    ensures
        (k * x) * (k * x) == k * k * (x * x),
{
    assert((k * x) * (k * x) == k * k * (x * x)) by (nonlinear_arith);
}

/// The squared distance between two points, scaled to cost units, as the
/// squared length of the scaled difference vector.
pub proof fn lemma_scaled_dist_sq(a: Point, b: Point)
    ensures
        COST_PER_TICK * COST_PER_TICK * dist_sq(a, b) == norm_sq(
            COST_PER_TICK * (b.x - a.x),
            COST_PER_TICK * (b.y - a.y),
            COST_PER_TICK * (b.z - a.z),
        ),
{
    let k: int = COST_PER_TICK as int;
    let x = b.x - a.x;
    let y = b.y - a.y;
    let z = b.z - a.z;
    lemma_square_of_difference(a.x as int, b.x as int);
    lemma_square_of_difference(a.y as int, b.y as int);
    lemma_square_of_difference(a.z as int, b.z as int);
    lemma_square_of_difference(b.x as int, a.x as int);
    lemma_square_of_difference(b.y as int, a.y as int);
    lemma_square_of_difference(b.z as int, a.z as int);
    assert(a.x * b.x == b.x * a.x && a.y * b.y == b.y * a.y && a.z * b.z == b.z * a.z)
        by (nonlinear_arith);
    assert(axis_gap_sq(a.x, b.x) == x * x);
    assert(axis_gap_sq(a.y, b.y) == y * y);
    assert(axis_gap_sq(a.z, b.z) == z * z);
    lemma_scaled_square(k, x);
    lemma_scaled_square(k, y);
    lemma_scaled_square(k, z);
    let kk = k * k;
    assert(kk * (x * x + y * y + z * z) == kk * (x * x) + kk * (y * y) + kk * (z * z))
        by (nonlinear_arith);
}

/// The square of the travel cost between two points reaches their scaled
/// squared distance.
pub proof fn lemma_travel_cost_covers(a: Point, b: Point)
    ensures
        travel_cost(a, b) * travel_cost(a, b) >= COST_PER_TICK * COST_PER_TICK * dist_sq(a, b),
{
    lemma_ceil_sqrt_exists(COST_PER_TICK as nat * COST_PER_TICK as nat * dist_sq(a, b));
}

/// The square of the cost of a path reaches the scaled squared distance
/// between its two ends.
pub proof fn lemma_route_cost_covers(path: Seq<Point>)
    requires
        path.len() >= 1,
    ensures
        route_cost(path) * route_cost(path) >= COST_PER_TICK * COST_PER_TICK * dist_sq(
            path.first(),
            path.last(),
        ),
    decreases path.len(),
{
    let k: int = COST_PER_TICK as int;
    let a = path.first();
    let c = path.last();
    if path.len() == 1 {
        lemma_scaled_dist_sq(a, a);
        assert(norm_sq(k * 0, k * 0, k * 0) == 0) by (nonlinear_arith);
        assert(route_cost(path) * route_cost(path) >= 0) by (nonlinear_arith);
    } else {
        let before = path.drop_last();
        let b = before.last();
        assert(b == path[path.len() - 2]);
        assert(before.first() == a);
        lemma_route_cost_covers(before);
        lemma_travel_cost_covers(b, c);
        lemma_scaled_dist_sq(a, b);
        lemma_scaled_dist_sq(b, c);
        lemma_scaled_dist_sq(a, c);
        lemma_triangle(
            route_cost(before),
            travel_cost(b, c),
            k * (b.x - a.x),
            k * (b.y - a.y),
            k * (b.z - a.z),
            k * (c.x - b.x),
            k * (c.y - b.y),
            k * (c.z - b.z),
        );
        assert(k * (b.x - a.x) + k * (c.x - b.x) == k * (c.x - a.x)) by (nonlinear_arith);
        assert(k * (b.y - a.y) + k * (c.y - b.y) == k * (c.y - a.y)) by (nonlinear_arith);
        assert(k * (b.z - a.z) + k * (c.z - b.z) == k * (c.z - a.z)) by (nonlinear_arith);
    }
}

/// No path between two points costs less than the distance between them.
pub proof fn lemma_no_shortcut(path: Seq<Point>)
    requires
        path.len() >= 1,
    ensures
        travel_cost(path.first(), path.last()) <= route_cost(path),
{
    lemma_route_cost_covers(path);
    lemma_ceil_sqrt_least(
        COST_PER_TICK as nat * COST_PER_TICK as nat * dist_sq(path.first(), path.last()),
        route_cost(path),
    );
}

/// The distance from `a` to `c` is no more than the distance from `a` to `b`
/// and from there to `c`. With `c` the end of a route and `b` one move from
/// `a`, this says that the estimate of the remaining cost is consistent.
pub proof fn lemma_triangle_inequality(a: Point, b: Point, c: Point)
    ensures
        travel_cost(a, c) <= travel_cost(a, b) + travel_cost(b, c),
{
    let path = seq![a, b, c];
    let head = seq![a, b];
    assert(path.drop_last() =~= head);
    assert(head.drop_last() =~= seq![a]);
    assert(route_cost(seq![a]) == 0);
    assert(route_cost(head) == travel_cost(a, b));
    assert(route_cost(path) == travel_cost(a, b) + travel_cost(b, c));
    lemma_no_shortcut(path);
}

/// The distance does not depend on the direction, and it is zero from a
/// point to itself.
pub proof fn lemma_distance_symmetric(a: Point, b: Point)
    ensures
        travel_cost(a, b) == travel_cost(b, a),
        travel_cost(a, a) == 0,
{
    lemma_scaled_dist_sq(a, b);
    lemma_scaled_dist_sq(b, a);
    let k: int = COST_PER_TICK as int;
    lemma_scaled_square(-1, k * (b.x - a.x));
    lemma_scaled_square(-1, k * (b.y - a.y));
    lemma_scaled_square(-1, k * (b.z - a.z));
    assert(-1 * (k * (b.x - a.x)) == k * (a.x - b.x)) by (nonlinear_arith);
    assert(-1 * (k * (b.y - a.y)) == k * (a.y - b.y)) by (nonlinear_arith);
    assert(-1 * (k * (b.z - a.z)) == k * (a.z - b.z)) by (nonlinear_arith);
    assert(dist_sq(a, b) == dist_sq(b, a)) by (nonlinear_arith)
        requires
            k == 1_000_000,
            k * k * dist_sq(a, b) == k * k * dist_sq(b, a),
    ;
    lemma_scaled_dist_sq(a, a);
    assert(norm_sq(k * 0, k * 0, k * 0) == 0) by (nonlinear_arith);
    lemma_ceil_sqrt_least(0, 0);
}

} // verus!
