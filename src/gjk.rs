use vstd::prelude::*;
use crate::vec3::{
    Coords, Vec3, WIDE_LIMIT, bounded, coords, cross_c, dot_c, is_zero_c, lemma_cross_bound, neg_c,
    same_dir_c, sub_c,
};
use crate::sphere::{
    MAX_EXTENT, Sphere, ceil_sqrt, is_ceil_sqrt, lemma_ceil_sqrt_is, scale_c, scale_comp,
};
use vstd::arithmetic::div_mod::{lemma_div_by_multiple, lemma_div_of0};

verus! {

/// Largest coordinate magnitude of a point of the Minkowski difference of two
/// well-formed spheres.
pub const POINT_LIMIT: i64 = 4 * MAX_EXTENT;

/// Number of support points the search adds before it gives up.
pub const MAX_ITERATIONS: usize = 64;

/// The points of a simplex, as mathematical vectors.
pub open spec fn pts(s: Seq<Vec3>) -> Seq<Coords> {
    s.map_values(|v: Vec3| v@)
}

pub open spec fn all_bounded(s: Seq<Coords>, k: int) -> bool {
    forall|i: int| 0 <= i < s.len() ==> #[trigger] bounded(s[i], k)
}

/// A direction perpendicular to the edge from `a` to `b`, in the plane of the
/// edge and the origin, pointing toward the origin. When the origin lies on the
/// edge's line that vector is zero, and any vector perpendicular to the edge is
/// taken instead.
pub open spec fn toward_origin_c(a: Coords, b: Coords) -> Coords {
    let e = sub_c(b, a);
    let p = cross_c(cross_c(e, neg_c(a)), e);
    if !is_zero_c(p) {
        p
    } else if !is_zero_c(cross_c(e, coords(1, 0, 0))) {
        cross_c(e, coords(1, 0, 0))
    } else {
        cross_c(e, coords(0, 1, 0))
    }
}

/// Classification of a segment: `s[1]` is the newest point, `s[0]` the older.
pub open spec fn line_c(s: Seq<Coords>) -> (Seq<Coords>, bool, Coords) {
    let a = s[1];
    let b = s[0];
    if same_dir_c(sub_c(b, a), neg_c(a)) {
        (s, false, toward_origin_c(a, b))
    } else {
        (s.remove(0), false, neg_c(a))
    }
}

/// Classification of a triangle: `s[2]` is the newest point, `s[0]` the oldest.
/// A degenerate (collinear) triangle falls back to the segment of its two
/// newest points, so that the search never continues along a zero direction.
pub open spec fn triangle_c(s: Seq<Coords>) -> (Seq<Coords>, bool, Coords) {
    let a = s[2];
    let b = s[1];
    let c = s[0];
    let ab = sub_c(b, a);
    let ac = sub_c(c, a);
    let ao = neg_c(a);
    let abc = cross_c(ab, ac);
    let ac_perp = cross_c(ab, abc);
    let ab_perp = cross_c(abc, ac);
    if same_dir_c(ab_perp, ao) {
        if same_dir_c(ac, ao) {
            (s.remove(1), false, toward_origin_c(a, c))
        } else {
            line_c(s.remove(0))
        }
    } else if same_dir_c(ac_perp, ao) {
        line_c(s.remove(0))
    } else if same_dir_c(abc, ao) {
        (s, false, abc)
    } else if is_zero_c(abc) {
        // the three points are collinear: go on from the segment of the two newest
        line_c(s.remove(0))
    } else {
        (seq![b, c, a], false, neg_c(abc))
    }
}

/// The origin lies on the inner side of the three faces of the tetrahedron
/// `s` that meet at its newest point `s[3]`.
pub open spec fn origin_enclosed(s: Seq<Coords>) -> bool {
    let a = s[3];
    let ab = sub_c(s[2], a);
    let ac = sub_c(s[1], a);
    let ad = sub_c(s[0], a);
    let ao = neg_c(a);
    !same_dir_c(cross_c(ab, ac), ao) && !same_dir_c(cross_c(ac, ad), ao) && !same_dir_c(
        cross_c(ad, ab),
        ao,
    )
}

/// Classification of a tetrahedron: `s[3]` is the newest point, `s[0]` the oldest.
pub open spec fn tetrahedron_c(s: Seq<Coords>, d: Coords) -> (Seq<Coords>, bool, Coords) {
    let a = s[3];
    let b = s[2];
    let c = s[1];
    let dd = s[0];
    let ab = sub_c(b, a);
    let ac = sub_c(c, a);
    let ad = sub_c(dd, a);
    let ao = neg_c(a);
    if same_dir_c(cross_c(ab, ac), ao) {
        triangle_c(s.remove(0))
    } else if same_dir_c(cross_c(ac, ad), ao) {
        triangle_c(s.remove(2))
    } else if same_dir_c(cross_c(ad, ab), ao) {
        triangle_c(seq![b, dd, a])
    } else {
        (s, true, d)
    }
}

/// Region classification of a simplex of two, three or four points.
pub open spec fn classify_c(s: Seq<Coords>, d: Coords) -> (Seq<Coords>, bool, Coords) {
    if s.len() == 2 {
        line_c(s)
    } else if s.len() == 3 {
        triangle_c(s)
    } else {
        tetrahedron_c(s, d)
    }
}

/// The point of the Minkowski difference `a - b` furthest along `d`; a zero
/// direction is replaced by the x axis.
pub open spec fn minkowski_c(a: Sphere, b: Sphere, d: Coords) -> Coords {
    let d2 = if is_zero_c(d) {
        coords(1, 0, 0)
    } else {
        d
    };
    sub_c(a.support_c(d2), b.support_c(neg_c(d2)))
}

/// `p` is the support point of the Minkowski difference `a - b` along some direction.
pub open spec fn on_difference(a: Sphere, b: Sphere, p: Coords) -> bool {
    exists|d: Coords| p == #[trigger] minkowski_c(a, b, d)
}

/// Every point of `s` is a support point of the Minkowski difference `a - b`.
pub open spec fn all_on_difference(a: Sphere, b: Sphere, s: Seq<Coords>) -> bool {
    forall|i: int| 0 <= i < s.len() ==> on_difference(a, b, #[trigger] s[i])
}

/// The search from simplex `s` along `d`, with `fuel` steps left: whether it
/// ends enclosing the origin, and the simplex it ends with. A support point
/// that does not pass the origin along `d` ends it: the shapes are apart or
/// only touch.
pub open spec fn search(a: Sphere, b: Sphere, s: Seq<Coords>, d: Coords, fuel: nat) -> (
    bool,
    Seq<Coords>,
)
    decreases fuel,
{
    if fuel == 0 {
        (false, s)
    } else {
        let p = minkowski_c(a, b, d);
        if dot_c(p, d) <= 0 {
            (false, s)
        } else {
            let r = classify_c(s.push(p), d);
            if r.1 {
                (true, r.0)
            } else {
                search(a, b, r.0, r.2, (fuel - 1) as nat)
            }
        }
    }
}

/// The first simplex point: the support point along the line between the centers.
pub open spec fn start_c(a: Sphere, b: Sphere) -> Coords {
    minkowski_c(a, b, sub_c(a.pos@, b.pos@))
}

/// The outcome of the intersection test on `a` and `b`.
pub open spec fn gjk_result(a: Sphere, b: Sphere) -> (bool, Seq<Coords>) {
    let p0 = start_c(a, b);
    search(a, b, seq![p0], neg_c(p0), MAX_ITERATIONS as nat)
}

proof fn lemma_remove_bounded(s: Seq<Coords>, i: int, k: int)
    requires
        all_bounded(s, k),
        0 <= i < s.len(),
    ensures
        all_bounded(s.remove(i), k),
        forall|j: int| 0 <= j < s.remove(i).len() ==> s.contains(#[trigger] s.remove(i)[j]),
{
    assert forall|j: int| 0 <= j < s.remove(i).len() implies bounded(
        #[trigger] s.remove(i)[j],
        k,
    ) && s.contains(s.remove(i)[j]) by {
        if j < i {
            assert(s.remove(i)[j] == s[j]);
        } else {
            assert(s.remove(i)[j] == s[j + 1]);
        }
    }
}

/// What the classification of a segment keeps: one or both points, the
/// newest still last.
proof fn lemma_line_shape(s: Seq<Coords>, k: int)
    requires
        s.len() == 2,
        all_bounded(s, k),
    ensures
        !line_c(s).1,
        1 <= line_c(s).0.len() <= 2,
        line_c(s).0.last() == s.last(),
        all_bounded(line_c(s).0, k),
        forall|j: int| 0 <= j < line_c(s).0.len() ==> s.contains(#[trigger] line_c(s).0[j]),
{
    lemma_remove_bounded(s, 0, k);
    assert(s.contains(s[0]));
    assert(s.contains(s[1]));
}

proof fn lemma_triangle_shape(s: Seq<Coords>, k: int)
    requires
        s.len() == 3,
        all_bounded(s, k),
    ensures
        !triangle_c(s).1,
        1 <= triangle_c(s).0.len() <= 3,
        triangle_c(s).0.last() == s.last(),
        all_bounded(triangle_c(s).0, k),
        forall|j: int|
            0 <= j < triangle_c(s).0.len() ==> s.contains(#[trigger] triangle_c(s).0[j]),
{
    lemma_remove_bounded(s, 0, k);
    lemma_remove_bounded(s, 1, k);
    lemma_line_shape(s.remove(0), k);
    assert(s.contains(s[0]));
    assert(s.contains(s[1]));
    assert(s.contains(s[2]));
    let t = seq![s[1], s[0], s[2]];
    assert forall|j: int| 0 <= j < 3 implies bounded(#[trigger] t[j], k) && s.contains(t[j]) by {
        if j == 0 {
            assert(bounded(s[1], k));
        } else if j == 1 {
            assert(bounded(s[0], k));
        } else {
            assert(bounded(s[2], k));
        }
    }
    let u = s.remove(0);
    assert forall|j: int| 0 <= j < line_c(u).0.len() implies s.contains(
        #[trigger] line_c(u).0[j],
    ) by {
        assert(u.contains(line_c(u).0[j]));
        let w = choose|w: int| 0 <= w < u.len() && u[w] == line_c(u).0[j];
        assert(s.contains(u[w]));
    }
}

/// The classification of a simplex of two to four points either finds the
/// origin enclosed by a tetrahedron, which it keeps whole, or keeps one to three
/// of the points, the newest still at the last index.
pub proof fn lemma_classify_shape(s: Seq<Coords>, d: Coords, k: int)
    requires
        2 <= s.len() <= 4,
        all_bounded(s, k),
    ensures
        classify_c(s, d).1 ==> classify_c(s, d).0 == s && s.len() == 4 && origin_enclosed(s),
        !classify_c(s, d).1 ==> 1 <= classify_c(s, d).0.len() <= 3,
        classify_c(s, d).0.last() == s.last(),
        all_bounded(classify_c(s, d).0, k),
        forall|j: int|
            0 <= j < classify_c(s, d).0.len() ==> s.contains(#[trigger] classify_c(s, d).0[j]),
{
    if s.len() == 2 {
        lemma_line_shape(s, k);
    } else if s.len() == 3 {
        lemma_triangle_shape(s, k);
    } else {
        assert(s.contains(s[0]));
        assert(s.contains(s[1]));
        assert(s.contains(s[2]));
        assert(s.contains(s[3]));
        lemma_remove_bounded(s, 0, k);
        lemma_remove_bounded(s, 2, k);
        let t = seq![s[2], s[0], s[3]];
        assert forall|j: int| 0 <= j < 3 implies bounded(#[trigger] t[j], k) && s.contains(
            t[j],
        ) by {
            if j == 0 {
                assert(bounded(s[2], k));
            } else if j == 1 {
                assert(bounded(s[0], k));
            } else {
                assert(bounded(s[3], k));
            }
        }
        let a = s[3];
        let ab = sub_c(s[2], a);
        let ac = sub_c(s[1], a);
        let ad = sub_c(s[0], a);
        let ao = neg_c(a);
        if same_dir_c(cross_c(ab, ac), ao) {
            sub_triangle(s, s.remove(0), k);
        } else if same_dir_c(cross_c(ac, ad), ao) {
            sub_triangle(s, s.remove(2), k);
        } else if same_dir_c(cross_c(ad, ab), ao) {
            sub_triangle(s, t, k);
        }
    }
}

proof fn sub_triangle(s: Seq<Coords>, u: Seq<Coords>, k: int)
    requires
        u.len() == 3,
        all_bounded(u, k),
        u.last() == s.last(),
        forall|j: int| 0 <= j < u.len() ==> s.contains(#[trigger] u[j]),
    ensures
        !triangle_c(u).1,
        1 <= triangle_c(u).0.len() <= 3,
        triangle_c(u).0.last() == s.last(),
        all_bounded(triangle_c(u).0, k),
        forall|j: int|
            0 <= j < triangle_c(u).0.len() ==> s.contains(#[trigger] triangle_c(u).0[j]),
{
    lemma_triangle_shape(u, k);
    assert forall|j: int| 0 <= j < triangle_c(u).0.len() implies s.contains(
        #[trigger] triangle_c(u).0[j],
    ) by {
        assert(u.contains(triangle_c(u).0[j]));
        let w = choose|w: int| 0 <= w < u.len() && u[w] == triangle_c(u).0[j];
        assert(s.contains(u[w]));
    }
}

/// Every point of the simplex buffer is a lattice vector within `POINT_LIMIT`.
pub open spec fn simplex_ok(s: Seq<Vec3>) -> bool {
    all_bounded(pts(s), POINT_LIMIT as int)
}

proof fn lemma_pt_bounded(s: Seq<Vec3>, i: int)
    requires
        simplex_ok(s),
        0 <= i < s.len(),
    ensures
        bounded(s[i]@, POINT_LIMIT as int),
{
    assert(pts(s)[i] == s[i]@);
}

/// The direction of `toward_origin_c`.
fn toward_origin(a: Vec3, b: Vec3) -> (r: Vec3)
    requires
        bounded(a@, POINT_LIMIT as int),
        bounded(b@, POINT_LIMIT as int),
    ensures
        r@ == toward_origin_c(a@, b@),
        bounded(r@, WIDE_LIMIT as int),
{
    let ghost k = POINT_LIMIT as int;
    let e = b.sub(a);
    let ao = a.neg();
    proof {
        lemma_cross_bound(e@, ao@, 2 * k, k);
    }
    let n = e.cross(ao);
    proof {
        lemma_cross_bound(n@, e@, 2 * (2 * k * k), 2 * k);
    }
    let p = n.cross(e);
    if !p.is_zero() {
        return p;
    }
    let x = Vec3::new(1, 0, 0);
    proof {
        lemma_cross_bound(e@, x@, 2 * k, 1);
    }
    let q = e.cross(x);
    if !q.is_zero() {
        return q;
    }
    let y = Vec3::new(0, 1, 0);
    proof {
        lemma_cross_bound(e@, y@, 2 * k, 1);
    }
    e.cross(y)
}

/// Region classification of the segment in `simplex` (see `line_c`).
pub fn check_line(simplex: &mut Vec<Vec3>, direction: Vec3) -> (r: (bool, Vec3))
    requires
        old(simplex)@.len() == 2,
        simplex_ok(old(simplex)@),
    ensures
        line_c(pts(old(simplex)@)) == (pts(final(simplex)@), r.0, r.1@),
        bounded(r.1@, WIDE_LIMIT as int),
{
    let ghost s0 = pts(simplex@);
    let a = simplex[1];
    let b = simplex[0];
    proof {
        lemma_pt_bounded(simplex@, 0);
        lemma_pt_bounded(simplex@, 1);
    }
    let ab = b.sub(a);
    let ao = a.neg();
    if ab.same_direction(ao) {
        proof {
            assert(pts(simplex@) == s0);
        }
        (false, toward_origin(a, b))
    } else {
        simplex.remove(0);
        proof {
            assert(pts(simplex@) =~= s0.remove(0));
        }
        (false, ao)
    }
}

/// Region classification of the triangle in `simplex` (see `triangle_c`).
pub fn check_triangle(simplex: &mut Vec<Vec3>, direction: Vec3) -> (r: (bool, Vec3))
    requires
        old(simplex)@.len() == 3,
        simplex_ok(old(simplex)@),
    ensures
        triangle_c(pts(old(simplex)@)) == (pts(final(simplex)@), r.0, r.1@),
        bounded(r.1@, WIDE_LIMIT as int),
{
    let ghost s0 = pts(simplex@);
    let a = simplex[2];
    let b = simplex[1];
    let c = simplex[0];
    proof {
        lemma_pt_bounded(simplex@, 0);
        lemma_pt_bounded(simplex@, 1);
        lemma_pt_bounded(simplex@, 2);
    }
    let ghost k = POINT_LIMIT as int;
    let ab = b.sub(a);
    let ac = c.sub(a);
    let ao = a.neg();
    proof {
        lemma_cross_bound(ab@, ac@, 2 * k, 2 * k);
    }
    let abc = ab.cross(ac);
    proof {
        lemma_cross_bound(ab@, abc@, 2 * k, 2 * (2 * k * (2 * k)));
        lemma_cross_bound(abc@, ac@, 2 * (2 * k * (2 * k)), 2 * k);
    }
    let ac_perp = ab.cross(abc);
    let ab_perp = abc.cross(ac);
    if ab_perp.same_direction(ao) {
        if ac.same_direction(ao) {
            simplex.remove(1);
            proof {
                assert(pts(simplex@) =~= s0.remove(1));
            }
            (false, toward_origin(a, c))
        } else {
            simplex.remove(0);
            proof {
                assert(pts(simplex@) =~= s0.remove(0));
                lemma_remove_bounded(s0, 0, k);
            }
            check_line(simplex, direction)
        }
    } else if ac_perp.same_direction(ao) {
        simplex.remove(0);
        proof {
            assert(pts(simplex@) =~= s0.remove(0));
            lemma_remove_bounded(s0, 0, k);
        }
        check_line(simplex, direction)
    } else if abc.same_direction(ao) {
        proof {
            assert(pts(simplex@) == s0);
        }
        (false, abc)
    } else if abc.is_zero() {
        simplex.remove(0);
        proof {
            assert(pts(simplex@) =~= s0.remove(0));
            lemma_remove_bounded(s0, 0, k);
        }
        check_line(simplex, direction)
    } else {
        simplex[1] = c;
        simplex[0] = b;
        proof {
            assert(pts(simplex@) =~= seq![b@, c@, a@]);
        }
        (false, abc.neg())
    }
}

/// Region classification of the tetrahedron in `simplex` (see `tetrahedron_c`).
pub fn check_tetrahedron(simplex: &mut Vec<Vec3>, direction: Vec3) -> (r: (bool, Vec3))
    requires
        old(simplex)@.len() == 4,
        simplex_ok(old(simplex)@),
        bounded(direction@, WIDE_LIMIT as int),
    ensures
        tetrahedron_c(pts(old(simplex)@), direction@) == (pts(final(simplex)@), r.0, r.1@),
        bounded(r.1@, WIDE_LIMIT as int),
{
    let ghost s0 = pts(simplex@);
    let a = simplex[3];
    let b = simplex[2];
    let c = simplex[1];
    let d = simplex[0];
    proof {
        lemma_pt_bounded(simplex@, 0);
        lemma_pt_bounded(simplex@, 1);
        lemma_pt_bounded(simplex@, 2);
        lemma_pt_bounded(simplex@, 3);
    }
    let ghost k = POINT_LIMIT as int;
    let ab = b.sub(a);
    let ac = c.sub(a);
    let ad = d.sub(a);
    let ao = a.neg();
    proof {
        lemma_cross_bound(ab@, ac@, 2 * k, 2 * k);
        lemma_cross_bound(ac@, ad@, 2 * k, 2 * k);
        lemma_cross_bound(ad@, ab@, 2 * k, 2 * k);
    }
    let abc = ab.cross(ac);
    let acd = ac.cross(ad);
    let adb = ad.cross(ab);
    if abc.same_direction(ao) {
        simplex.remove(0);
        proof {
            assert(pts(simplex@) =~= s0.remove(0));
            lemma_remove_bounded(s0, 0, k);
        }
        return check_triangle(simplex, direction);
    }
    if acd.same_direction(ao) {
        simplex.remove(2);
        proof {
            assert(pts(simplex@) =~= s0.remove(2));
            lemma_remove_bounded(s0, 2, k);
        }
        return check_triangle(simplex, direction);
    }
    if adb.same_direction(ao) {
        simplex.remove(1);
        simplex[0] = b;
        simplex[1] = d;
        proof {
            assert(pts(simplex@) =~= seq![b@, d@, a@]);
            assert(bounded(pts(simplex@)[0], k));
            assert(bounded(pts(simplex@)[1], k));
            assert(bounded(pts(simplex@)[2], k));
        }
        return check_triangle(simplex, direction);
    }
    proof {
        assert(pts(simplex@) == s0);
    }
    (true, direction)
}

/// Region classification of the simplex, by its number of points: it either
/// finds the origin enclosed, or drops the points whose regions cannot hold the
/// origin and returns the next search direction.
pub fn check_simplex(simplex: &mut Vec<Vec3>, direction: Vec3) -> (r: (bool, Vec3))
    requires
        2 <= old(simplex)@.len() <= 4,
        simplex_ok(old(simplex)@),
        bounded(direction@, WIDE_LIMIT as int),
    ensures
        classify_c(pts(old(simplex)@), direction@) == (pts(final(simplex)@), r.0, r.1@),
        bounded(r.1@, WIDE_LIMIT as int),
        simplex_ok(final(simplex)@),
        r.0 ==> final(simplex)@ == old(simplex)@ && final(simplex)@.len() == 4 && origin_enclosed(
            pts(final(simplex)@),
        ),
        !r.0 ==> 1 <= final(simplex)@.len() <= 3,
        final(simplex)@.last() == old(simplex)@.last(),
{
    let ghost s0 = simplex@;
    proof {
        lemma_classify_shape(pts(s0), direction@, POINT_LIMIT as int);
    }
    let n = simplex.len();
    let r = if n == 2 {
        check_line(simplex, direction)
    } else if n == 3 {
        check_triangle(simplex, direction)
    } else {
        check_tetrahedron(simplex, direction)
    };
    proof {
        let t = simplex@;
        assert(pts(t).len() == t.len());
        assert(pts(t).last() == t.last()@);
        assert(pts(s0).last() == s0.last()@);
        assert(t.last() == s0.last());
        if r.0 {
            assert(t =~= s0) by {
                assert forall|i: int| 0 <= i < t.len() implies t[i] == s0[i] by {
                    assert(pts(t)[i] == pts(s0)[i]);
                }
            }
        }
    }
    r
}

/// The point of the Minkowski difference `a - b` furthest along `direction`
/// (see `minkowski_c`).
pub fn support(shape_a: &Sphere, shape_b: &Sphere, direction: Vec3) -> (r: Vec3)
    requires
        shape_a.wf(),
        shape_b.wf(),
        bounded(direction@, WIDE_LIMIT as int),
    ensures
        r@ == minkowski_c(*shape_a, *shape_b, direction@),
        bounded(r@, POINT_LIMIT as int),
{
    let d = if direction.is_zero() {
        Vec3::new(1, 0, 0)
    } else {
        direction
    };
    let pa = shape_a.furthest_point(d);
    let pb = shape_b.furthest_point(d.neg());
    pa.sub(pb)
}

/// The first simplex point (see `start_c`).
fn pick_starting_point(shape_a: &Sphere, shape_b: &Sphere) -> (r: Vec3)
    requires
        shape_a.wf(),
        shape_b.wf(),
    ensures
        r@ == start_c(*shape_a, *shape_b),
        bounded(r@, POINT_LIMIT as int),
{
    let direction = shape_a.pos().sub(shape_b.pos());
    support(shape_a, shape_b, direction)
}

/// Decides whether the two spheres overlap by searching their Minkowski
/// difference for the origin. `simplex` must be empty; when the result is
/// `true` it holds the four points of a tetrahedron that encloses the origin.
/// A support point that does not pass the origin along the search direction
/// separates the shapes or shows that they only touch: touching spheres do not
/// intersect. The search gives up, with `false`, after `MAX_ITERATIONS`
/// support points.
pub fn gjk(simplex: &mut Vec<Vec3>, shape_a: &Sphere, shape_b: &Sphere) -> (r: bool)
    requires
        old(simplex)@.len() == 0,
        shape_a.wf(),
        shape_b.wf(),
    ensures
        (r, pts(final(simplex)@)) == gjk_result(*shape_a, *shape_b),
        r ==> final(simplex)@.len() == 4 && origin_enclosed(pts(final(simplex)@))
            && all_on_difference(*shape_a, *shape_b, pts(final(simplex)@)),
{
    let p0 = pick_starting_point(shape_a, shape_b);
    simplex.push(p0);
    let mut direction = p0.neg();
    proof {
        assert(pts(simplex@) =~= seq![p0@]);
        assert(bounded(pts(simplex@)[0], POINT_LIMIT as int));
        assert(on_difference(
            *shape_a,
            *shape_b,
            minkowski_c(*shape_a, *shape_b, sub_c(shape_a.pos@, shape_b.pos@)),
        ));
    }
    let mut iter: usize = 0;
    while iter < MAX_ITERATIONS
        invariant
            shape_a.wf(),
            shape_b.wf(),
            iter <= MAX_ITERATIONS,
            1 <= simplex@.len() <= 3,
            simplex_ok(simplex@),
            bounded(direction@, WIDE_LIMIT as int),
            all_on_difference(*shape_a, *shape_b, pts(simplex@)),
            search(*shape_a, *shape_b, pts(simplex@), direction@, (MAX_ITERATIONS - iter) as nat)
                == gjk_result(*shape_a, *shape_b),
        decreases MAX_ITERATIONS - iter,
    {
        let ghost s0 = pts(simplex@);
        let p = support(shape_a, shape_b, direction);
        if p.dot(direction) <= 0 {
            return false;
        }
        simplex.push(p);
        proof {
            assert(pts(simplex@) =~= s0.push(p@));
            assert forall|i: int| 0 <= i < pts(simplex@).len() implies bounded(
                #[trigger] pts(simplex@)[i],
                POINT_LIMIT as int,
            ) by {
                if i < s0.len() {
                    assert(pts(simplex@)[i] == s0[i]);
                }
            }
            assert(on_difference(*shape_a, *shape_b, minkowski_c(*shape_a, *shape_b, direction@)));
            assert forall|i: int| 0 <= i < pts(simplex@).len() implies on_difference(
                *shape_a,
                *shape_b,
                #[trigger] pts(simplex@)[i],
            ) by {
                if i < s0.len() {
                    assert(pts(simplex@)[i] == s0[i]);
                }
            }
        }
        let ghost pushed = pts(simplex@);
        let (hit, next) = check_simplex(simplex, direction);
        proof {
            lemma_classify_shape(pushed, direction@, POINT_LIMIT as int);
            assert forall|i: int| 0 <= i < pts(simplex@).len() implies on_difference(
                *shape_a,
                *shape_b,
                #[trigger] pts(simplex@)[i],
            ) by {
                assert(pushed.contains(pts(simplex@)[i]));
                let w = choose|w: int| 0 <= w < pushed.len() && pushed[w] == pts(simplex@)[i];
                assert(on_difference(*shape_a, *shape_b, pushed[w]));
            }
        }
        if hit {
            return true;
        }
        direction = next;
        iter = iter + 1;
    }
    false
}

/// Rescaling a vector along one axis, of magnitude `m`, gives that axis scaled
/// by `r`.
proof fn lemma_scale_axis(d: Coords, m: int, r: int)
    requires
        0 < m,
        0 <= r,
        (d.x == m || d.x == -m) && d.y == 0 && d.z == 0 || d.x == 0 && (d.y == m || d.y == -m)
            && d.z == 0 || d.x == 0 && d.y == 0 && (d.z == m || d.z == -m),
    ensures
        scale_c(d, r) == coords(
            if d.x == 0 { 0 } else if d.x > 0 { r } else { -r },
            if d.y == 0 { 0 } else if d.y > 0 { r } else { -r },
            if d.z == 0 { 0 } else if d.z > 0 { r } else { -r },
        ),
{
    assert(dot_c(d, d) == m * m) by (nonlinear_arith)
        requires
            (d.x == m || d.x == -m) && d.y == 0 && d.z == 0 || d.x == 0 && (d.y == m || d.y
                == -m) && d.z == 0 || d.x == 0 && d.y == 0 && (d.z == m || d.z == -m),
    ;
    lemma_div_of0(m);
    if m * m >= r * r {
        assert(m * m >= m * m && (m - 1) * (m - 1) < m * m) by (nonlinear_arith)
            requires
                0 < m,
        ;
        assert(is_ceil_sqrt(m * m, m));
        lemma_ceil_sqrt_is(m * m, m);
        assert(ceil_sqrt(dot_c(d, d)) == m);
        lemma_div_by_multiple(r, m);
        assert(m * r == r * m) by (nonlinear_arith);
        assert(0 * r == 0);
        assert(scale_comp(m, r, m) == r);
        assert(scale_comp(-m, r, m) == -r);
        assert(scale_comp(0, r, m) == 0);
    } else {
        let k = m * r;
        assert(r > 0) by {
            if r == 0 {
                assert(r * r == 0);
                assert(m * m >= 0) by (nonlinear_arith);
            }
        }
        assert(k >= 1 && k * k == (m * m) * (r * r) && (k - 1) * (k - 1) < k * k) by (
        nonlinear_arith)
            requires
                k == m * r,
                m >= 1,
                r >= 1,
        ;
        assert(is_ceil_sqrt((m * m) * (r * r), k));
        lemma_ceil_sqrt_is((m * m) * (r * r), k);
        assert(ceil_sqrt(dot_c(d, d) * (r * r)) == k);
        lemma_div_by_multiple(r, k);
        assert(m * (r * r) == r * k) by (nonlinear_arith)
            requires
                k == m * r,
        ;
        assert(0 * (r * r) == 0);
        assert(scale_comp(m, r * r, k) == r);
        assert(scale_comp(-m, r * r, k) == -r);
        assert(scale_comp(0, r * r, k) == 0);
    }
}

/// Two spheres with the same center and positive radii always intersect.
pub proof fn lemma_concentric_spheres_intersect(a: Sphere, b: Sphere)
    requires
        a.wf(),
        b.wf(),
        a.pos@ == b.pos@,
        a.radius > 0,
        b.radius > 0,
    ensures
        gjk_result(a, b).0,
{
    let ra = a.radius as int;
    let rb = b.radius as int;
    let r = ra + rb;
    let c = a.pos@;
    assert(is_zero_c(sub_c(a.pos@, b.pos@)));
    let x = coords(1, 0, 0);
    lemma_scale_axis(x, 1, ra);
    lemma_scale_axis(neg_c(x), 1, rb);
    let p0 = coords(r, 0, 0);
    assert(start_c(a, b) == p0);
    let d1 = neg_c(p0);
    lemma_scale_axis(d1, r, ra);
    lemma_scale_axis(neg_c(d1), r, rb);
    let p1 = coords(-r, 0, 0);
    assert(minkowski_c(a, b, d1) == p1);
    assert(r * r > 0) by (nonlinear_arith)
        requires
            r > 0,
    ;
    assert(dot_c(p1, d1) == r * r) by (nonlinear_arith)
        requires
            p1 == coords(-r, 0, 0),
            d1 == coords(-r, 0, 0),
    ;
    let s1 = seq![p0].push(p1);
    assert(dot_c(sub_c(p0, p1), neg_c(p1)) == 2 * (r * r)) by (nonlinear_arith)
        requires
            p1 == coords(-r, 0, 0),
            p0 == coords(r, 0, 0),
    ;
    let d2 = coords(0, 0, 2 * r);
    assert(cross_c(sub_c(p0, p1), neg_c(p1)) == coords(0, 0, 0)) by (nonlinear_arith)
        requires
            p1 == coords(-r, 0, 0),
            p0 == coords(r, 0, 0),
    ;
    let e = sub_c(p0, p1);
    assert(is_zero_c(cross_c(cross_c(e, neg_c(p1)), e))) by (nonlinear_arith)
        requires
            cross_c(e, neg_c(p1)) == coords(0, 0, 0),
    ;
    assert(is_zero_c(cross_c(e, coords(1, 0, 0)))) by (nonlinear_arith)
        requires
            e == coords(2 * r, 0, 0),
    ;
    assert(cross_c(e, coords(0, 1, 0)) == d2) by (nonlinear_arith)
        requires
            e == coords(2 * r, 0, 0),
            d2 == coords(0, 0, 2 * r),
    ;
    assert(toward_origin_c(p1, p0) == d2);
    assert(classify_c(s1, d1) == (s1, false, d2));
    lemma_scale_axis(d2, 2 * r, ra);
    lemma_scale_axis(neg_c(d2), 2 * r, rb);
    let p2 = coords(0, 0, r);
    assert(minkowski_c(a, b, d2) == p2);
    assert(dot_c(p2, d2) == 2 * (r * r)) by (nonlinear_arith)
        requires
            p2 == coords(0, 0, r),
            d2 == coords(0, 0, 2 * r),
    ;
    let s2 = s1.push(p2);
    // the triangle: c = p0, b = p1, a = p2
    let ab = sub_c(p1, p2);
    let ac = sub_c(p0, p2);
    let ao = neg_c(p2);
    let abc = cross_c(ab, ac);
    assert(abc == coords(0, -2 * (r * r), 0)) by (nonlinear_arith)
        requires
            ab == coords(-r, 0, -r),
            ac == coords(r, 0, -r),
            abc == cross_c(ab, ac),
    ;
    assert(r * r * r > 0) by (nonlinear_arith)
        requires
            r > 0,
    ;
    assert(r * r * r * r > 0) by (nonlinear_arith)
        requires
            r > 0,
    ;
    assert(dot_c(cross_c(abc, ac), ao) == -2 * (r * r * r * r)) by (nonlinear_arith)
        requires
            abc == coords(0, -2 * (r * r), 0),
            ac == coords(r, 0, -r),
            ao == coords(0, 0, -r),
    ;
    assert(dot_c(cross_c(ab, abc), ao) == -2 * (r * r * r * r)) by (nonlinear_arith)
        requires
            abc == coords(0, -2 * (r * r), 0),
            ab == coords(-r, 0, -r),
            ao == coords(0, 0, -r),
    ;
    assert(dot_c(abc, ao) == 0) by (nonlinear_arith)
        requires
            abc == coords(0, -2 * (r * r), 0),
            ao == coords(0, 0, -r),
    ;
    let d3 = coords(0, 2 * (r * r), 0);
    let s3 = seq![p1, p0, p2];
    assert(classify_c(s2, d2) == (s3, false, d3));
    lemma_scale_axis(d3, 2 * (r * r), ra);
    lemma_scale_axis(neg_c(d3), 2 * (r * r), rb);
    let p3 = coords(0, r, 0);
    assert(minkowski_c(a, b, d3) == p3);
    assert(dot_c(p3, d3) == 2 * (r * r * r)) by (nonlinear_arith)
        requires
            p3 == coords(0, r, 0),
            d3 == coords(0, 2 * (r * r), 0),
    ;
    let s4 = s3.push(p3);
    // the tetrahedron: d = p1, c = p0, b = p2, a = p3
    let tab = sub_c(p2, p3);
    let tac = sub_c(p0, p3);
    let tad = sub_c(p1, p3);
    let tao = neg_c(p3);
    assert(dot_c(cross_c(tab, tac), tao) == -(r * r * r)) by (nonlinear_arith)
        requires
            tab == coords(0, -r, r),
            tac == coords(r, -r, 0),
            tao == coords(0, -r, 0),
    ;
    assert(dot_c(cross_c(tac, tad), tao) == 0) by (nonlinear_arith)
        requires
            tac == coords(r, -r, 0),
            tad == coords(-r, -r, 0),
            tao == coords(0, -r, 0),
    ;
    assert(dot_c(cross_c(tad, tab), tao) == -(r * r * r)) by (nonlinear_arith)
        requires
            tab == coords(0, -r, r),
            tad == coords(-r, -r, 0),
            tao == coords(0, -r, 0),
    ;
    assert(classify_c(s4, d3) == (s4, true, d3));
    assert(search(a, b, s3, d3, 62) == (true, s4));
    assert(search(a, b, s1, d2, 63) == search(a, b, s3, d3, 62));
    assert(seq![p0].push(p1) == s1);
    assert(search(a, b, seq![p0], d1, 64) == search(a, b, s1, d2, 63));
}

/// Two spheres whose centers differ along a single coordinate axis, by at
/// least the sum of the radii, never intersect: separated spheres are found
/// apart, and touching ones count as not intersecting. The second support
/// point already fails to pass the origin.
pub proof fn lemma_axis_apart_spheres_do_not_intersect(a: Sphere, b: Sphere, m: int)
    requires
        a.wf(),
        b.wf(),
        m > 0,
        m >= a.radius + b.radius,
        ({
            let d = sub_c(a.pos@, b.pos@);
            (d.x == m || d.x == -m) && d.y == 0 && d.z == 0 || d.x == 0 && (d.y == m || d.y
                == -m) && d.z == 0 || d.x == 0 && d.y == 0 && (d.z == m || d.z == -m)
        }),
    ensures
        !gjk_result(a, b).0,
{
    let ra = a.radius as int;
    let rb = b.radius as int;
    let r = ra + rb;
    let d = sub_c(a.pos@, b.pos@);
    let u = coords(
        if d.x == 0 { 0 } else if d.x > 0 { 1 } else { -1 },
        if d.y == 0 { 0 } else if d.y > 0 { 1 } else { -1 },
        if d.z == 0 { 0 } else if d.z > 0 { 1 } else { -1 },
    );
    assert(m * u.x == d.x && m * u.y == d.y && m * u.z == d.z) by (nonlinear_arith)
        requires
            u == coords(
                if d.x == 0 { 0 } else if d.x > 0 { 1 } else { -1 },
                if d.y == 0 { 0 } else if d.y > 0 { 1 } else { -1 },
                if d.z == 0 { 0 } else if d.z > 0 { 1 } else { -1 },
            ),
            (d.x == m || d.x == -m) && d.y == 0 && d.z == 0 || d.x == 0 && (d.y == m || d.y
                == -m) && d.z == 0 || d.x == 0 && d.y == 0 && (d.z == m || d.z == -m),
            m > 0,
    ;
    assert(d == coords(m * u.x, m * u.y, m * u.z));
    assert(u.x * u.x + u.y * u.y + u.z * u.z == 1) by (nonlinear_arith)
        requires
            (u.x == 1 || u.x == -1) && u.y == 0 && u.z == 0 || u.x == 0 && (u.y == 1 || u.y
                == -1) && u.z == 0 || u.x == 0 && u.y == 0 && (u.z == 1 || u.z == -1),
    ;
    lemma_scale_axis(d, m, ra);
    lemma_scale_axis(neg_c(d), m, rb);
    let p0 = coords((m + r) * u.x, (m + r) * u.y, (m + r) * u.z);
    assert(start_c(a, b) == p0);
    let d1 = neg_c(p0);
    lemma_scale_axis(d1, m + r, ra);
    lemma_scale_axis(neg_c(d1), m + r, rb);
    let p1 = coords((m - r) * u.x, (m - r) * u.y, (m - r) * u.z);
    assert(minkowski_c(a, b, d1) == p1);
    assert(dot_c(p1, d1) <= 0) by (nonlinear_arith)
        requires
            p1 == coords((m - r) * u.x, (m - r) * u.y, (m - r) * u.z),
            d1 == coords(-((m + r) * u.x), -((m + r) * u.y), -((m + r) * u.z)),
            u.x * u.x + u.y * u.y + u.z * u.z == 1,
            m >= r,
            r >= 0,
    ;
    assert(search(a, b, seq![p0], d1, 64) == (false, seq![p0]));
}

} // verus!
