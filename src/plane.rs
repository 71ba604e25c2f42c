//! Points, vectors, planes, rays and the exact ray/triangle crossing test.
use vstd::prelude::*;

verus! {

/// Largest magnitude a coordinate may have.
pub const COORD_LIMIT: i64 = 16777216;

/// Largest magnitude of a component of a difference of two points.
pub const SPAN_LIMIT: i64 = 33554432;

/// Largest magnitude of a component of a cross product of two differences.
pub const CROSS_LIMIT: i64 = 2251799813685248;

/// Largest magnitude of a dot product of a difference and a cross product.
pub const DOT_LIMIT: i128 = 226673591177742970257408;

/// A mathematical 3-vector.
pub type V3 = (int, int, int);

pub open spec fn v_sub(a: V3, b: V3) -> V3 {
    (a.0 - b.0, a.1 - b.1, a.2 - b.2)
}

pub open spec fn v_cross(a: V3, b: V3) -> V3 {
    (a.1 * b.2 - a.2 * b.1, a.2 * b.0 - a.0 * b.2, a.0 * b.1 - a.1 * b.0)
}

pub open spec fn v_dot(a: V3, b: V3) -> int {
    a.0 * b.0 + a.1 * b.1 + a.2 * b.2
}

pub open spec fn v_zero() -> V3 {
    (0, 0, 0)
}

pub open spec fn within(c: int, limit: int) -> bool {
    -limit <= c <= limit
}

pub open spec fn v_within(v: V3, limit: int) -> bool {
    within(v.0, limit) && within(v.1, limit) && within(v.2, limit)
}

/// A position in space, in fixed-point units.
#[derive(Clone, Copy, Debug, PartialEq, Eq, Structural)]
pub struct Point {
    pub x: i64,
    pub y: i64,
    pub z: i64,
}

impl View for Point {
    type V = V3;

    open spec fn view(&self) -> V3 {
        (self.x as int, self.y as int, self.z as int)
    }
}

impl Point {
    /// Every coordinate lies within `COORD_LIMIT`.
    pub open spec fn wf(&self) -> bool {
        v_within(self@, COORD_LIMIT as int)
    }

    pub fn new(x: i64, y: i64, z: i64) -> (r: Point)
        ensures
            r@ == (x as int, y as int, z as int),
    {
        Point { x, y, z }
    }
}

/// A displacement between two points, or a cross product of two such.
#[derive(Clone, Copy, Debug, PartialEq, Eq, Structural)]
pub struct Vector3 {
    pub x: i64,
    pub y: i64,
    pub z: i64,
}

impl View for Vector3 {
    type V = V3;

    open spec fn view(&self) -> V3 {
        (self.x as int, self.y as int, self.z as int)
    }
}

proof fn lemma_mul_within(a: int, b: int, la: int, lb: int) by (nonlinear_arith)
    requires
        within(a, la),
        within(b, lb),
    ensures
        within(a * b, la * lb),
{
}

proof fn lemma_cross_within(a: V3, b: V3)
    requires
        v_within(a, SPAN_LIMIT as int),
        v_within(b, SPAN_LIMIT as int),
    ensures
        v_within(v_cross(a, b), CROSS_LIMIT as int),
{
    lemma_mul_within(a.0, b.1, 33554432, 33554432);
    lemma_mul_within(a.0, b.2, 33554432, 33554432);
    lemma_mul_within(a.1, b.0, 33554432, 33554432);
    lemma_mul_within(a.1, b.2, 33554432, 33554432);
    lemma_mul_within(a.2, b.0, 33554432, 33554432);
    lemma_mul_within(a.2, b.1, 33554432, 33554432);
}

proof fn lemma_dot_within(a: V3, b: V3)
    requires
        v_within(a, SPAN_LIMIT as int),
        v_within(b, CROSS_LIMIT as int),
    ensures
        within(v_dot(a, b), DOT_LIMIT as int),
{
    lemma_mul_within(a.0, b.0, 33554432, 2251799813685248);
    lemma_mul_within(a.1, b.1, 33554432, 2251799813685248);
    lemma_mul_within(a.2, b.2, 33554432, 2251799813685248);
}

/// The vector from `point_b` to `point_a`.
pub fn point_difference(point_a: &Point, point_b: &Point) -> (r: Vector3)
    requires
        point_a.wf(),
        point_b.wf(),
    ensures
        r@ == v_sub(point_a@, point_b@),
        v_within(r@, SPAN_LIMIT as int),
{
    Vector3 { x: point_a.x - point_b.x, y: point_a.y - point_b.y, z: point_a.z - point_b.z }
}

/// The cross product of two differences of points.
pub fn cross(a: &Vector3, b: &Vector3) -> (r: Vector3)
    requires
        v_within(a@, SPAN_LIMIT as int),
        v_within(b@, SPAN_LIMIT as int),
    ensures
        r@ == v_cross(a@, b@),
        v_within(r@, CROSS_LIMIT as int),
{
    proof {
        lemma_cross_within(a@, b@);
        lemma_mul_within(a.x as int, b.y as int, 33554432, 33554432);
        lemma_mul_within(a.x as int, b.z as int, 33554432, 33554432);
        lemma_mul_within(a.y as int, b.x as int, 33554432, 33554432);
        lemma_mul_within(a.y as int, b.z as int, 33554432, 33554432);
        lemma_mul_within(a.z as int, b.x as int, 33554432, 33554432);
        lemma_mul_within(a.z as int, b.y as int, 33554432, 33554432);
    }
    Vector3 {
        x: a.y * b.z - a.z * b.y,
        y: a.z * b.x - a.x * b.z,
        z: a.x * b.y - a.y * b.x,
    }
}

/// The dot product of a difference of points with a cross product.
pub fn dot(a: &Vector3, b: &Vector3) -> (r: i128)
    requires
        v_within(a@, SPAN_LIMIT as int),
        v_within(b@, CROSS_LIMIT as int),
    ensures
        r == v_dot(a@, b@),
        within(r as int, DOT_LIMIT as int),
{
    proof {
        lemma_dot_within(a@, b@);
        lemma_mul_within(a.x as int, b.x as int, 33554432, 2251799813685248);
        lemma_mul_within(a.y as int, b.y as int, 33554432, 2251799813685248);
        lemma_mul_within(a.z as int, b.z as int, 33554432, 2251799813685248);
    }
    (a.x as i128) * (b.x as i128) + (a.y as i128) * (b.y as i128) + (a.z as i128) * (b.z as i128)
}

/// The three points lie on one line (their triangle has no area).
pub open spec fn collinear(p0: V3, p1: V3, p2: V3) -> bool {
    v_cross(v_sub(p1, p0), v_sub(p2, p0)) == v_zero()
}

/// The plane through `point` with normal `normal` holds `p`.
pub open spec fn on_plane(normal: V3, d: int, p: V3) -> bool {
    v_dot(normal, p) == d
}

/// `x`, negated where `det` is negative.
pub open spec fn signed_by(det: int, x: int) -> int {
    if det < 0 { -x } else { x }
}

/// Exact Moller-Trumbore test of the ray `o + s * dir` (`s > 0`) against the
/// closed triangle `p0 p1 p2`.
///
/// With `e1 = p1 - p0`, `e2 = p2 - p0` and `det = e1 . (dir x e2)`, the ray is
/// parallel to the triangle's plane when `det == 0`, and strikes its back face
/// when `det < 0`. Otherwise the barycentric coordinates of the crossing are
/// `u / det` and `v / det` and its ray parameter is `t / det`. The crossing
/// point is returned as numerators over a positive common denominator.
pub open spec fn crossing(p0: V3, p1: V3, p2: V3, o: V3, dir: V3, cull_back_faces: bool) -> Option<(int, int, int, int)> {
    let e1 = v_sub(p1, p0);
    let e2 = v_sub(p2, p0);
    let pv = v_cross(dir, e2);
    let det = v_dot(e1, pv);
    let tv = v_sub(o, p0);
    let q = v_cross(tv, e1);
    let den = signed_by(det, det);
    let u = signed_by(det, v_dot(tv, pv));
    let v = signed_by(det, v_dot(dir, q));
    let t = signed_by(det, v_dot(e2, q));
    if det == 0 || (cull_back_faces && det < 0) {
        None
    } else if u < 0 || u > den || v < 0 || u + v > den || t <= 0 {
        None
    } else {
        Some((o.0 * den + dir.0 * t, o.1 * den + dir.1 * t, o.2 * den + dir.2 * t, den))
    }
}

proof fn lemma_mul_distrib(x: int, p: int, q: int) by (nonlinear_arith)
    ensures
        x * (p - q) == x * p - x * q,
{
}

proof fn lemma_mul_swap_outer(x: int, y: int, z: int) by (nonlinear_arith)
    ensures
        x * (y * z) == y * (x * z),
        x * (y * z) == z * (y * x),
{
}

proof fn lemma_triple_rotate(a0: int, a1: int, a2: int, b0: int, b1: int, b2: int, c0: int, c1: int, c2: int)
    ensures
        a0 * (b1 * c2 - b2 * c1) + a1 * (b2 * c0 - b0 * c2) + a2 * (b0 * c1 - b1 * c0)
            == -(b0 * (a1 * c2 - a2 * c1) + b1 * (a2 * c0 - a0 * c2) + b2 * (a0 * c1 - a1 * c0)),
{
    lemma_mul_distrib(a0, b1 * c2, b2 * c1);
    lemma_mul_distrib(a1, b2 * c0, b0 * c2);
    lemma_mul_distrib(a2, b0 * c1, b1 * c0);
    lemma_mul_distrib(b0, a1 * c2, a2 * c1);
    lemma_mul_distrib(b1, a2 * c0, a0 * c2);
    lemma_mul_distrib(b2, a0 * c1, a1 * c0);
    lemma_mul_swap_outer(a0, b1, c2);
    lemma_mul_swap_outer(a0, b2, c1);
    lemma_mul_swap_outer(a1, b2, c0);
    lemma_mul_swap_outer(a1, b0, c2);
    lemma_mul_swap_outer(a2, b0, c1);
    lemma_mul_swap_outer(a2, b1, c0);
}

proof fn lemma_triple_repeat(a0: int, a1: int, a2: int, c0: int, c1: int, c2: int)
    ensures
        a0 * (a1 * c2 - a2 * c1) + a1 * (a2 * c0 - a0 * c2) + a2 * (a0 * c1 - a1 * c0) == 0,
        c0 * (a1 * c2 - a2 * c1) + c1 * (a2 * c0 - a0 * c2) + c2 * (a0 * c1 - a1 * c0) == 0,
{
    lemma_mul_distrib(a0, a1 * c2, a2 * c1);
    lemma_mul_distrib(a1, a2 * c0, a0 * c2);
    lemma_mul_distrib(a2, a0 * c1, a1 * c0);
    lemma_mul_distrib(c0, a1 * c2, a2 * c1);
    lemma_mul_distrib(c1, a2 * c0, a0 * c2);
    lemma_mul_distrib(c2, a0 * c1, a1 * c0);
    lemma_mul_swap_outer(a0, a1, c2);
    lemma_mul_swap_outer(a0, a2, c1);
    lemma_mul_swap_outer(a1, a2, c0);
    lemma_mul_swap_outer(c0, a1, c2);
    lemma_mul_swap_outer(c0, a2, c1);
    lemma_mul_swap_outer(c1, a0, c2);
}

proof fn lemma_dot_zero(a: V3)
    ensures
        v_dot(a, v_zero()) == 0,
{
    assert(a.0 * 0 == 0 && a.1 * 0 == 0 && a.2 * 0 == 0) by (nonlinear_arith);
}

/// `a . (b x c) == -(b . (a x c))`
proof fn lemma_triple_swap(a: V3, b: V3, c: V3)
    ensures
        v_dot(a, v_cross(b, c)) == -v_dot(b, v_cross(a, c)),
{
    lemma_triple_rotate(a.0, a.1, a.2, b.0, b.1, b.2, c.0, c.1, c.2);
}

/// `a . (a x c) == 0` and `c . (a x c) == 0`
proof fn lemma_cross_orthogonal(a: V3, c: V3)
    ensures
        v_dot(a, v_cross(a, c)) == 0,
        v_dot(c, v_cross(a, c)) == 0,
{
    lemma_triple_repeat(a.0, a.1, a.2, c.0, c.1, c.2);
}

proof fn lemma_dot_comm(a: V3, b: V3)
    ensures
        v_dot(a, b) == v_dot(b, a),
{
    assert(a.0 * b.0 == b.0 * a.0) by (nonlinear_arith);
    assert(a.1 * b.1 == b.1 * a.1) by (nonlinear_arith);
    assert(a.2 * b.2 == b.2 * a.2) by (nonlinear_arith);
}

proof fn lemma_dot_sub(n: V3, p: V3, q: V3)
    ensures
        v_dot(n, p) == v_dot(n, q) + v_dot(n, v_sub(p, q)),
{
    assert(n.0 * p.0 == n.0 * q.0 + n.0 * (p.0 - q.0)) by (nonlinear_arith);
    assert(n.1 * p.1 == n.1 * q.1 + n.1 * (p.1 - q.1)) by (nonlinear_arith);
    assert(n.2 * p.2 == n.2 * q.2 + n.2 * (p.2 - q.2)) by (nonlinear_arith);
}

/// No ray crosses a triangle whose corners are collinear, and no ray without
/// a direction crosses any triangle.
pub proof fn lemma_degenerate_never_crossed(p0: V3, p1: V3, p2: V3, o: V3, dir: V3, cull_back_faces: bool)
    requires
        collinear(p0, p1, p2) || dir == v_zero(),
    ensures
        crossing(p0, p1, p2, o, dir, cull_back_faces) is None,
{
    lemma_triple_swap(v_sub(p1, p0), dir, v_sub(p2, p0));
    if collinear(p0, p1, p2) {
        lemma_dot_zero(dir);
    } else {
        let e2 = v_sub(p2, p0);
        assert(0 * e2.2 - 0 * e2.1 == 0 && 0 * e2.0 - 0 * e2.2 == 0 && 0 * e2.1 - 0 * e2.0 == 0);
        assert(v_cross(dir, e2) == v_zero());
        lemma_dot_zero(v_sub(p1, p0));
    }
}

/// A point with rational coordinates `x / den`, `y / den`, `z / den`.
#[derive(Clone, Copy, Debug, PartialEq, Eq, Structural)]
pub struct RationalPoint {
    pub x: i128,
    pub y: i128,
    pub z: i128,
    pub den: i128,
}

impl View for RationalPoint {
    type V = (int, int, int, int);

    open spec fn view(&self) -> (int, int, int, int) {
        (self.x as int, self.y as int, self.z as int, self.den as int)
    }
}

/// The plane of points `p` with `normal . p == d`.
#[derive(Clone, Copy, Debug, PartialEq, Eq, Structural)]
pub struct Plane {
    pub normal: Vector3,
    pub d: i128,
}

impl Plane {
    pub fn new(normal: Vector3, point_on_plane: Point) -> (r: Plane)
        requires
            v_within(normal@, CROSS_LIMIT as int),
            point_on_plane.wf(),
        ensures
            r.normal == normal,
            on_plane(normal@, r.d as int, point_on_plane@),
    {
        let p = Vector3 { x: point_on_plane.x, y: point_on_plane.y, z: point_on_plane.z };
        let d = dot(&p, &normal);
        proof {
            lemma_dot_comm(p@, normal@);
        }
        Plane { normal, d }
    }

    /// The plane through three points, or `None` where they are collinear.
    pub fn from_three_points(p0: &Point, p1: &Point, p2: &Point) -> (r: Option<Plane>)
        requires
            p0.wf(),
            p1.wf(),
            p2.wf(),
        ensures
            r.is_none() <==> collinear(p0@, p1@, p2@),
            r matches Some(pl) ==> pl.normal@ == v_cross(v_sub(p1@, p0@), v_sub(p2@, p0@))
                && on_plane(pl.normal@, pl.d as int, p0@)
                && on_plane(pl.normal@, pl.d as int, p1@)
                && on_plane(pl.normal@, pl.d as int, p2@),
    {
        let v1 = point_difference(p1, p0);
        let v2 = point_difference(p2, p0);
        let normal = cross(&v1, &v2);
        if normal.x == 0 && normal.y == 0 && normal.z == 0 {
            return None;
        }
        let pl = Plane::new(normal, *p0);
        proof {
            let n = normal@;
            lemma_cross_orthogonal(v1@, v2@);
            lemma_dot_sub(n, p1@, p0@);
            lemma_dot_sub(n, p2@, p0@);
            lemma_dot_comm(n, v1@);
            lemma_dot_comm(n, v2@);
        }
        Some(pl)
    }

    /// Whether `point` lies exactly on the plane.
    pub fn is_on_plane(&self, point: &Point) -> (r: bool)
        requires
            v_within(self.normal@, CROSS_LIMIT as int),
            point.wf(),
        ensures
            r == on_plane(self.normal@, self.d as int, point@),
    {
        let p = Vector3 { x: point.x, y: point.y, z: point.z };
        let dp = dot(&p, &self.normal);
        proof {
            lemma_dot_comm(p@, self.normal@);
        }
        dp == self.d
    }
}

/// A half-line from `origin` along `direction`.
///
/// The direction is kept as given: the crossing test is exact, so the
/// parameter along the ray needs no unit scale.
#[derive(Clone, Copy, Debug, PartialEq, Eq, Structural)]
pub struct Ray {
    pub origin: Point,
    pub direction: Vector3,
}

impl Ray {
    pub open spec fn wf(&self) -> bool {
        self.origin.wf() && v_within(self.direction@, SPAN_LIMIT as int)
    }

    pub fn new(origin: Point, direction: Vector3) -> (r: Ray)
        ensures
            r.origin == origin,
            r.direction == direction,
    {
        Ray { origin, direction }
    }

    /// The point `origin + direction * t_num / t_den`.
    pub fn point_at_parameter(&self, t_num: i128, t_den: i128) -> (r: RationalPoint)
        requires
            self.wf(),
            0 < t_den <= DOT_LIMIT,
            within(t_num as int, DOT_LIMIT as int),
        ensures
            r@ == (
                self.origin.x * t_den + self.direction.x * t_num,
                self.origin.y * t_den + self.direction.y * t_num,
                self.origin.z * t_den + self.direction.z * t_num,
                t_den as int,
            ),
    {
        let o = self.origin;
        let d = self.direction;
        proof {
            lemma_mul_within(o.x as int, t_den as int, 16777216, 226673591177742970257408);
            lemma_mul_within(o.y as int, t_den as int, 16777216, 226673591177742970257408);
            lemma_mul_within(o.z as int, t_den as int, 16777216, 226673591177742970257408);
            lemma_mul_within(d.x as int, t_num as int, 33554432, 226673591177742970257408);
            lemma_mul_within(d.y as int, t_num as int, 33554432, 226673591177742970257408);
            lemma_mul_within(d.z as int, t_num as int, 33554432, 226673591177742970257408);
        }
        RationalPoint {
            x: (o.x as i128) * t_den + (d.x as i128) * t_num,
            y: (o.y as i128) * t_den + (d.y as i128) * t_num,
            z: (o.z as i128) * t_den + (d.z as i128) * t_num,
            den: t_den,
        }
    }
}

/// A triangle given by its corners; its winding `p0, p1, p2` fixes its front face.
#[derive(Clone, Copy, Debug, PartialEq, Eq, Structural)]
pub struct Triangle {
    pub p0: Point,
    pub p1: Point,
    pub p2: Point,
}

impl Triangle {
    pub open spec fn wf(&self) -> bool {
        self.p0.wf() && self.p1.wf() && self.p2.wf()
    }

    pub fn new(p0: Point, p1: Point, p2: Point) -> (r: Triangle)
        ensures
            r.p0 == p0,
            r.p1 == p1,
            r.p2 == p2,
    {
        Triangle { p0, p1, p2 }
    }

    /// The surface normal `(p1 - p0) x (p2 - p0)`, twice the triangle's area in length.
    pub fn normal(&self) -> (r: Vector3)
        requires
            self.wf(),
        ensures
            r@ == v_cross(v_sub(self.p1@, self.p0@), v_sub(self.p2@, self.p0@)),
    {
        let edge1 = point_difference(&self.p1, &self.p0);
        let edge2 = point_difference(&self.p2, &self.p0);
        cross(&edge1, &edge2)
    }

    /// Where `ray` crosses this triangle, edges and corners included.
    ///
    /// A ray parallel to the triangle's plane never crosses it, nor does one
    /// that meets it at its own origin. With `cull_back_faces`, a ray that
    /// meets the back face does not count either.
    pub fn intersect_ray(&self, ray: &Ray, cull_back_faces: bool) -> (r: Option<RationalPoint>)
        requires
            self.wf(),
            ray.wf(),
        ensures
            r.is_some() == crossing(self.p0@, self.p1@, self.p2@, ray.origin@, ray.direction@, cull_back_faces).is_some(),
            r matches Some(h) ==> crossing(self.p0@, self.p1@, self.p2@, ray.origin@, ray.direction@, cull_back_faces) == Some(h@),
            collinear(self.p0@, self.p1@, self.p2@) ==> r.is_none(),
            ray.direction@ == v_zero() ==> r.is_none(),
    {
        let edge1 = point_difference(&self.p1, &self.p0);
        let edge2 = point_difference(&self.p2, &self.p0);
        let p_vec = cross(&ray.direction, &edge2);
        let det = dot(&edge1, &p_vec);
        proof {
            lemma_triple_swap(edge1@, ray.direction@, edge2@);
            if collinear(self.p0@, self.p1@, self.p2@) {
                lemma_dot_zero(ray.direction@);
            }
        }
        if det == 0 || (cull_back_faces && det < 0) {
            return None;
        }
        let t_vec = point_difference(&ray.origin, &self.p0);
        let q_vec = cross(&t_vec, &edge1);
        let mut den = det;
        let mut u = dot(&t_vec, &p_vec);
        let mut v = dot(&ray.direction, &q_vec);
        let mut t = dot(&edge2, &q_vec);
        if det < 0 {
            den = -det;
            u = -u;
            v = -v;
            t = -t;
        }
        if u < 0 || u > den {
            return None;
        }
        if v < 0 || u + v > den {
            return None;
        }
        if t <= 0 {
            return None;
        }
        Some(ray.point_at_parameter(t, den))
    }
}

/// Where the ray from `ray_origin` along `ray_direction` crosses the triangle
/// `tri_p0 tri_p1 tri_p2`, as `Triangle::intersect_ray` decides it.
pub fn does_vector_pass_through_triangle_section(
    tri_p0: &Point,
    tri_p1: &Point,
    tri_p2: &Point,
    ray_origin: &Point,
    ray_direction: &Vector3,
    cull_back_faces: bool,
) -> (r: Option<RationalPoint>)
    requires
        tri_p0.wf(),
        tri_p1.wf(),
        tri_p2.wf(),
        ray_origin.wf(),
        v_within(ray_direction@, SPAN_LIMIT as int),
    ensures
        r.is_some() == crossing(tri_p0@, tri_p1@, tri_p2@, ray_origin@, ray_direction@, cull_back_faces).is_some(),
        r matches Some(h) ==> crossing(tri_p0@, tri_p1@, tri_p2@, ray_origin@, ray_direction@, cull_back_faces) == Some(h@),
        collinear(tri_p0@, tri_p1@, tri_p2@) ==> r.is_none(),
        ray_direction@ == v_zero() ==> r.is_none(),
{
    let triangle = Triangle::new(*tri_p0, *tri_p1, *tri_p2);
    let ray = Ray::new(*ray_origin, *ray_direction);
    triangle.intersect_ray(&ray, cull_back_faces)
}

} // verus!
