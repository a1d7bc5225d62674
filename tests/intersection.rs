use contact3d::collision::{get_collisions, narrow_phase, sphere_contact, CData, PhysObj, NORMAL_LENGTH};
use contact3d::gjk::{check_line, check_simplex, check_tetrahedron, check_triangle, gjk, support};
use contact3d::sphere::{ceil_sqrt_u128, scale_to, Sphere, MAX_EXTENT};
use contact3d::vec3::Vec3;

fn v(x: i64, y: i64, z: i64) -> Vec3 {
    Vec3::new(x, y, z)
}

fn sphere(x: i64, y: i64, z: i64, r: i64) -> Sphere {
    Sphere { pos: v(x, y, z), radius: r }
}

fn overlaps(a: &Sphere, b: &Sphere) -> bool {
    let mut simplex: Vec<Vec3> = Vec::new();
    let hit = gjk(&mut simplex, a, b);
    if hit {
        assert_eq!(simplex.len(), 4);
    }
    hit
}

fn bodies(spheres: &[Sphere]) -> Vec<PhysObj> {
    spheres
        .iter()
        .enumerate()
        .map(|(i, s)| PhysObj { id: 10 + i, collider: *s })
        .collect()
}

#[test]
fn vector_operations() {
    let a = v(1, 2, 3);
    let b = v(4, -5, 6);
    assert_eq!(a.add(b), v(5, -3, 9));
    assert_eq!(a.sub(b), v(-3, 7, -3));
    assert_eq!(a.neg(), v(-1, -2, -3));
    assert_eq!(a.dot(b), 4 - 10 + 18);
    assert_eq!(a.cross(b), v(2 * 6 - 3 * -5, 3 * 4 - 1 * 6, 1 * -5 - 2 * 4));
    assert!(Vec3::zero().is_zero());
    assert!(!a.is_zero());
}

#[test]
fn same_direction_is_strict() {
    assert!(v(1, 0, 0).same_direction(v(2, 5, 0)));
    assert!(!v(1, 0, 0).same_direction(v(0, 5, 0)));
    assert!(!v(1, 0, 0).same_direction(v(-1, 5, 0)));
}

#[test]
fn ceil_sqrt_values() {
    assert_eq!(ceil_sqrt_u128(0), 0);
    assert_eq!(ceil_sqrt_u128(1), 1);
    assert_eq!(ceil_sqrt_u128(2), 2);
    assert_eq!(ceil_sqrt_u128(4), 2);
    assert_eq!(ceil_sqrt_u128(5), 3);
    assert_eq!(ceil_sqrt_u128(2_250_000), 1500);
    assert_eq!(ceil_sqrt_u128(2_250_001), 1501);
}

#[test]
fn scale_to_length() {
    assert_eq!(scale_to(v(3000, 0, 0), 1000), v(1000, 0, 0));
    assert_eq!(scale_to(v(0, -7, 0), 1000), v(0, -1000, 0));
    assert_eq!(scale_to(v(3, 4, 0), 1000), v(600, 800, 0));
    assert_eq!(scale_to(v(-3, 4, 0), 10), v(-6, 8, 0));
    assert_eq!(scale_to(Vec3::zero(), 1000), Vec3::zero());
}

#[test]
fn sphere_accessors_and_support() {
    let s = sphere(100, 200, 300, 50);
    assert_eq!(s.pos(), v(100, 200, 300));
    assert_eq!(s.radius(), 50);
    assert_eq!(s.furthest_point(v(0, 0, 9)), v(100, 200, 350));
    assert_eq!(s.furthest_point(v(-3, 4, 0)), v(70, 240, 300));
    assert_eq!(s.furthest_point(Vec3::zero()), v(100, 200, 300));
}

#[test]
fn minkowski_support_point() {
    let a = sphere(0, 0, 0, 1000);
    let b = sphere(1500, 0, 0, 1000);
    assert_eq!(support(&a, &b, v(1, 0, 0)), v(500, 0, 0));
    assert_eq!(support(&a, &b, v(-1, 0, 0)), v(-3500, 0, 0));
    // a zero direction falls back to the x axis
    assert_eq!(support(&a, &b, Vec3::zero()), v(500, 0, 0));
}

#[test]
fn line_keeps_edge_when_origin_beside_it() {
    let mut s = vec![v(-10, 5, 0), v(10, 5, 0)];
    let (hit, d) = check_line(&mut s, v(0, 0, 0));
    assert!(!hit);
    assert_eq!(s, vec![v(-10, 5, 0), v(10, 5, 0)]);
    // perpendicular to the edge, toward the origin
    assert_eq!(d.x, 0);
    assert!(d.y < 0);
    assert_eq!(d.z, 0);
}

#[test]
fn line_drops_older_point_when_origin_past_newest() {
    let mut s = vec![v(-10, 5, 0), v(-5, 5, 0)];
    let (hit, d) = check_line(&mut s, v(0, 0, 0));
    assert!(!hit);
    assert_eq!(s, vec![v(-5, 5, 0)]);
    assert_eq!(d, v(5, -5, 0));
}

#[test]
fn line_through_origin_takes_a_perpendicular() {
    let mut s = vec![v(2000, 0, 0), v(-2000, 0, 0)];
    let (hit, d) = check_line(&mut s, v(-1, 0, 0));
    assert!(!hit);
    assert_eq!(s.len(), 2);
    assert!(!d.is_zero());
    assert_eq!(d.dot(v(1, 0, 0)), 0);
}

#[test]
fn triangle_above_face_keeps_points() {
    // origin lies below the triangle, on the side of its normal
    let mut s = vec![v(-10, -10, 5), v(10, -10, 5), v(0, 10, 5)];
    let (hit, d) = check_triangle(&mut s, v(0, 0, -1));
    assert!(!hit);
    assert_eq!(s.len(), 3);
    assert_eq!(s[2], v(0, 10, 5));
    assert!(d.dot(v(0, 0, -1)) > 0);
}

#[test]
fn triangle_swaps_winding_for_other_side() {
    let mut s = vec![v(10, -10, 5), v(-10, -10, 5), v(0, 10, 5)];
    let (hit, d) = check_triangle(&mut s, v(0, 0, -1));
    assert!(!hit);
    assert_eq!(s, vec![v(-10, -10, 5), v(10, -10, 5), v(0, 10, 5)]);
    assert!(d.dot(v(0, 0, -1)) > 0);
}

#[test]
fn tetrahedron_enclosing_origin() {
    let mut s = vec![v(-10, -10, -10), v(0, 10, -10), v(10, -10, -10), v(0, 0, 10)];
    let before = s.clone();
    let (hit, _) = check_tetrahedron(&mut s, v(0, 0, 1));
    assert!(hit);
    assert_eq!(s, before);
}

#[test]
fn tetrahedron_away_from_origin_shrinks() {
    let mut s = vec![v(-10, -10, 20), v(10, -10, 20), v(0, 10, 20), v(0, 0, 40)];
    let (hit, _) = check_tetrahedron(&mut s, v(0, 0, 1));
    assert!(!hit);
    assert!(s.len() >= 1 && s.len() <= 3);
    assert_eq!(*s.last().unwrap(), v(0, 0, 40));
}

#[test]
fn classification_keeps_sizes_and_newest_point() {
    let cases: Vec<Vec<Vec3>> = vec![
        vec![v(-10, 5, 0), v(10, 5, 0)],
        vec![v(-10, 5, 0), v(-5, 5, 0)],
        vec![v(-10, -10, 5), v(10, -10, 5), v(0, 10, 5)],
        vec![v(30, 30, 30), v(20, 30, 30), v(25, 20, 30)],
        vec![v(-10, -10, 20), v(10, -10, 20), v(0, 10, 20), v(0, 0, 40)],
        vec![v(-10, -10, -10), v(0, 10, -10), v(10, -10, -10), v(0, 0, 10)],
        vec![v(-10, -10, -10), v(10, -10, -10), v(0, 10, -10), v(0, 0, 10)],
    ];
    for case in cases {
        let mut s = case.clone();
        let (hit, _) = check_simplex(&mut s, v(0, 0, 1));
        if hit {
            assert_eq!(s, case);
            assert_eq!(s.len(), 4);
        } else {
            assert!(s.len() >= 1 && s.len() <= 3);
        }
        assert_eq!(s.last(), case.last());
        assert!(s.iter().all(|p| case.contains(p)));
    }
}

#[test]
fn concentric_spheres_intersect() {
    let pairs = [(1000, 1000), (1, 5), (MAX_EXTENT, 1), (7, 7)];
    for (ra, rb) in pairs {
        assert!(overlaps(&sphere(0, 0, 0, ra), &sphere(0, 0, 0, rb)));
        assert!(overlaps(&sphere(-40, 17, 3, ra), &sphere(-40, 17, 3, rb)));
    }
}

#[test]
fn separated_spheres_do_not_intersect() {
    assert!(!overlaps(&sphere(0, 0, 0, 1000), &sphere(2001, 0, 0, 1000)));
    assert!(!overlaps(&sphere(0, 0, 0, 1000), &sphere(3000, 0, 0, 1000)));
    assert!(!overlaps(&sphere(0, 0, 0, 500), &sphere(1000, 1000, 1000, 500)));
    assert!(!overlaps(&sphere(10, -20, 30, 100), &sphere(-200, 300, -50, 150)));
    assert!(!overlaps(&sphere(0, 0, 0, 1000), &sphere(0, -2500, 0, 1000)));
}

#[test]
fn tangent_spheres_do_not_intersect() {
    assert!(!overlaps(&sphere(0, 0, 0, 1000), &sphere(2000, 0, 0, 1000)));
    assert!(!overlaps(&sphere(0, 0, 0, 1000), &sphere(0, 0, -2000, 1000)));
    assert!(!overlaps(&sphere(0, 0, 0, 1000), &sphere(1200, 1600, 0, 1000)));
    assert!(!overlaps(&sphere(0, 0, 0, 1000), &sphere(0, -2000, 0, 1000)));
}

#[test]
fn barely_overlapping_spheres_intersect() {
    assert!(overlaps(&sphere(0, 0, 0, 1000), &sphere(1990, 0, 0, 1000)));
    assert!(overlaps(&sphere(0, 0, 0, 1000), &sphere(0, 0, -1990, 1000)));
}

#[test]
fn overlapping_spheres_intersect() {
    assert!(overlaps(&sphere(0, 0, 0, 1000), &sphere(1500, 0, 0, 1000)));
    assert!(overlaps(&sphere(0, 0, 0, 1000), &sphere(0, 1200, 0, 1000)));
    assert!(overlaps(&sphere(0, 0, 0, 1000), &sphere(600, 600, 600, 1000)));
    assert!(overlaps(&sphere(5, 5, 5, 300), &sphere(100, -50, 20, 200)));
}

#[test]
fn contact_of_two_spheres() {
    let (n, d) = sphere_contact(&sphere(0, 0, 0, 1000), &sphere(1500, 0, 0, 1000));
    assert_eq!(n, v(NORMAL_LENGTH, 0, 0));
    assert_eq!(d, 500);
    let (n, d) = sphere_contact(&sphere(0, 0, 0, 1000), &sphere(0, 0, 0, 1000));
    assert_eq!(n, v(NORMAL_LENGTH, 0, 0));
    assert_eq!(d, 2000);
    let (_, d) = sphere_contact(&sphere(0, 0, 0, 10), &sphere(100, 0, 0, 10));
    assert_eq!(d, 0);
}

#[test]
fn end_to_end_overlap_gives_one_contact() {
    let objs = bodies(&[sphere(0, 0, 0, 1000), sphere(1500, 0, 0, 1000)]);
    let mut out: Vec<CData> = Vec::new();
    narrow_phase(&mut out, &objs);
    assert_eq!(out.len(), 1);
    assert_eq!(out[0].depth, 500);
    assert_eq!(out[0].normal, v(NORMAL_LENGTH, 0, 0));
    assert_eq!((out[0].id_a, out[0].id_b), (10, 11));
}

#[test]
fn end_to_end_separation_gives_no_contact() {
    let objs = bodies(&[sphere(0, 0, 0, 1000), sphere(3000, 0, 0, 1000)]);
    let mut out: Vec<CData> = Vec::new();
    get_collisions(&mut out, &objs);
    assert!(out.is_empty());
}

#[test]
fn driver_visits_every_pair_once() {
    for n in [0usize, 1, 2, 5] {
        let spheres: Vec<Sphere> = (0..n).map(|_| sphere(0, 0, 0, 100)).collect();
        let objs = bodies(&spheres);
        let mut out: Vec<CData> = Vec::new();
        narrow_phase(&mut out, &objs);
        assert_eq!(out.len(), n * (n.saturating_sub(1)) / 2);
        let mut expected = Vec::new();
        for i in 0..n {
            for j in i + 1..n {
                expected.push((10 + i, 10 + j));
            }
        }
        let got: Vec<(usize, usize)> = out.iter().map(|c| (c.id_a, c.id_b)).collect();
        assert_eq!(got, expected);
    }
}

#[test]
fn driver_appends_to_existing_contacts() {
    let objs = bodies(&[sphere(0, 0, 0, 1000), sphere(1500, 0, 0, 1000)]);
    let earlier = CData { normal: v(0, 1, 0), depth: 3, id_a: 7, id_b: 8 };
    let mut out = vec![earlier];
    narrow_phase(&mut out, &objs);
    assert_eq!(out.len(), 2);
    assert_eq!(out[0], earlier);
}

#[test]
fn driver_reports_only_overlapping_pairs() {
    let objs = bodies(&[
        sphere(0, 0, 0, 1000),
        sphere(5000, 0, 0, 1000),
        sphere(1500, 0, 0, 1000),
    ]);
    let mut out: Vec<CData> = Vec::new();
    narrow_phase(&mut out, &objs);
    let got: Vec<(usize, usize)> = out.iter().map(|c| (c.id_a, c.id_b)).collect();
    assert_eq!(got, vec![(10, 12)]);
}

#[test]
fn swapped_bodies_give_mirrored_contact() {
    let a = sphere(0, 0, 0, 1000);
    let b = sphere(1500, 300, -200, 1000);
    let mut first: Vec<CData> = Vec::new();
    narrow_phase(&mut first, &vec![PhysObj { id: 1, collider: a }, PhysObj { id: 2, collider: b }]);
    let mut second: Vec<CData> = Vec::new();
    narrow_phase(&mut second, &vec![PhysObj { id: 2, collider: b }, PhysObj { id: 1, collider: a }]);
    assert_eq!(first.len(), 1);
    assert_eq!(second.len(), 1);
    assert_eq!((first[0].id_a, first[0].id_b), (1, 2));
    assert_eq!((second[0].id_a, second[0].id_b), (2, 1));
    assert_eq!(second[0].normal, first[0].normal.neg());
    assert_eq!(second[0].depth, first[0].depth);
}

#[test]
fn body_collider_accessor() {
    let o = PhysObj { id: 3, collider: sphere(1, 2, 3, 4) };
    assert_eq!(*o.collider(), sphere(1, 2, 3, 4));
}

#[test]
fn short_direction_reaches_the_surface() {
    let s = sphere(0, 0, 0, 1000);
    let p = s.furthest_point(v(1, 1, 0));
    assert_eq!(p, v(706, 706, 0));
    let len2 = p.dot(p);
    assert!(len2 <= 1000 * 1000);
    assert!(len2 >= 997 * 997);
    let q = sphere(10, 20, 30, 500).furthest_point(v(-1, 1, 1));
    let off = q.sub(v(10, 20, 30));
    assert!(off.dot(off) <= 500 * 500 && off.dot(off) >= 497 * 497);
    assert!(off.x < 0 && off.y > 0 && off.z > 0);
}

#[test]
fn scale_to_short_and_long_directions() {
    assert_eq!(scale_to(v(1, 1, 0), 1000), v(706, 706, 0));
    assert_eq!(scale_to(v(1, 1, 1), NORMAL_LENGTH), v(37837, 37837, 37837));
    let r = scale_to(v(123_456_789, -987_654, 55), 1000);
    assert!(r.dot(r) <= 1000 * 1000 && r.dot(r) >= 997 * 997);
}

#[test]
fn contact_normal_has_normal_length() {
    let (n, _) = sphere_contact(&sphere(0, 0, 0, 10), &sphere(1, 1, 0, 10));
    assert_eq!(n, v(46340, 46340, 0));
    let l = NORMAL_LENGTH as i128;
    assert!(n.dot(n) <= l * l && n.dot(n) >= (l - 3) * (l - 3));
}

#[test]
fn collinear_triangle_falls_back_to_segment() {
    let mut s = vec![v(3, 0, 0), v(2, 0, 0), v(1, 0, 0)];
    let (hit, d) = check_triangle(&mut s, v(-1, 0, 0));
    assert!(!hit);
    assert_eq!(s, vec![v(1, 0, 0)]);
    assert!(!d.is_zero());
    assert_eq!(d, v(-1, 0, 0));
}
