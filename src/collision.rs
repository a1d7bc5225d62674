use vstd::prelude::*;
use vstd::arithmetic::div_mod::lemma_div_of0;
use crate::vec3::{Coords, Vec3, coords, dot_c, is_zero_c, neg_c, sub_c};
use crate::sphere::{
    MAX_EXTENT, Sphere, ceil_sqrt, ceil_sqrt_u128, is_ceil_sqrt, lemma_ceil_sqrt_exists, lemma_ceil_sqrt_is, scale_c,
    scale_comp, scale_to,
};
use crate::gjk::{gjk, gjk_result};

verus! {

/// Length of a contact normal: the fixed-point representation of one.
pub const NORMAL_LENGTH: i64 = 0x1_0000;

/// A simulated body: a stable identifier and its collider.
#[derive(Clone, Copy, Debug, PartialEq, Eq, Structural)]
pub struct PhysObj {
    pub id: usize,
    pub collider: Sphere,
}

impl PhysObj {
    pub fn collider(&self) -> (r: &Sphere)
        ensures
            *r == self.collider,
    {
        &self.collider
    }
}

/// A contact between two overlapping bodies: the normal (of length about
/// `NORMAL_LENGTH`, pointing from body `id_a` toward body `id_b`), the
/// penetration depth, and the two bodies' identifiers.
#[derive(Clone, Copy, Debug, PartialEq, Eq, Structural)]
pub struct CData {
    pub normal: Vec3,
    pub depth: i64,
    pub id_a: usize,
    pub id_b: usize,
}

/// Contact normal of two spheres: from the center of `a` toward the center of
/// `b`, rescaled to `NORMAL_LENGTH`; the x axis when the centers coincide.
pub open spec fn normal_c(a: Sphere, b: Sphere) -> Coords {
    let d = sub_c(b.pos@, a.pos@);
    if is_zero_c(d) {
        coords(NORMAL_LENGTH as int, 0, 0)
    } else {
        scale_c(d, NORMAL_LENGTH as int)
    }
}

/// Penetration depth of two spheres: the sum of the radii less the distance of
/// the centers (rounded up), and zero where that is negative.
pub open spec fn depth_c(a: Sphere, b: Sphere) -> int {
    let d = sub_c(b.pos@, a.pos@);
    let overlap = a.radius + b.radius - ceil_sqrt(dot_c(d, d));
    if overlap < 0 {
        0
    } else {
        overlap
    }
}

proof fn lemma_ceil_sqrt_le(n: int, r: int, m: int)
    requires
        is_ceil_sqrt(n, r),
        0 <= m,
        n <= m * m,
    ensures
        r <= m,
{
    if r > m {
        assert((r - 1) * (r - 1) >= m * m) by (nonlinear_arith)
            requires
                0 <= m <= r - 1,
        ;
    }
}

/// Penetration resolution for two spheres, in closed form: the contact normal
/// `normal_c` and the depth `depth_c`.
pub fn sphere_contact(a: &Sphere, b: &Sphere) -> (r: (Vec3, i64))
    requires
        a.wf(),
        b.wf(),
    ensures
        r.0@ == normal_c(*a, *b),
        (NORMAL_LENGTH - 3) * (NORMAL_LENGTH - 3) <= dot_c(r.0@, r.0@) <= NORMAL_LENGTH
            * NORMAL_LENGTH,
        r.1 == depth_c(*a, *b),
        r.1 >= 0,
{
    let d = b.pos.sub(a.pos);
    let normal = if d.is_zero() {
        let n = Vec3::new(NORMAL_LENGTH, 0, 0);
        assert(dot_c(n@, n@) == NORMAL_LENGTH * NORMAL_LENGTH) by (nonlinear_arith)
            requires
                n@ == coords(0x1_0000, 0, 0),
        ;
        n
    } else {
        scale_to(d, NORMAL_LENGTH)
    };
    let n2 = d.dot(d);
    proof {
        assert(d@.x * d@.x >= 0 && d@.y * d@.y >= 0 && d@.z * d@.z >= 0) by (nonlinear_arith);
        crate::vec3::lemma_dot_bound(d@, d@, 2 * MAX_EXTENT, 2 * MAX_EXTENT);
    }
    let dist = ceil_sqrt_u128(n2 as u128);
    proof {
        lemma_ceil_sqrt_is(n2 as int, dist as int);
        lemma_ceil_sqrt_le(n2 as int, dist as int, 0x10_0000);
    }
    let overlap: i64 = a.radius + b.radius - dist as i64;
    if overlap < 0 {
        (normal, 0)
    } else {
        (normal, overlap)
    }
}

/// The pairs `(i, i + 1)`, ..., `(i, j - 1)`.
pub open spec fn row(i: int, j: int) -> Seq<(int, int)> {
    Seq::new(
        if j > i + 1 {
            (j - i - 1) as nat
        } else {
            0
        },
        |k: int| (i, i + 1 + k),
    )
}

/// The rows of pairs of first index below `i`, each pair `(p, q)` with `p < q < n`.
pub open spec fn rows(i: int, n: int) -> Seq<(int, int)>
    decreases i,
{
    if i <= 0 {
        seq![]
    } else {
        rows(i - 1, n) + row(i - 1, n)
    }
}

/// Every unordered pair of indices below `n`, in the order the driver visits them.
pub open spec fn pairs(n: int) -> Seq<(int, int)> {
    rows(n, n)
}

/// Where pair `(p, q)` stands in the enumeration.
pub open spec fn pair_index(p: int, q: int, n: int) -> int {
    rows(p, n).len() + q - p - 1
}

/// The bodies at the indices of `p` overlap.
pub open spec fn hits(objs: Seq<PhysObj>, p: (int, int)) -> bool {
    gjk_result(objs[p.0].collider, objs[p.1].collider).0
}

/// The pairs of `ps` whose bodies overlap, in order.
pub open spec fn hit_pairs(objs: Seq<PhysObj>, ps: Seq<(int, int)>) -> Seq<(int, int)>
    decreases ps.len(),
{
    if ps.len() == 0 {
        seq![]
    } else {
        let q = hit_pairs(objs, ps.drop_last());
        if hits(objs, ps.last()) {
            q.push(ps.last())
        } else {
            q
        }
    }
}

/// `c` is the contact record of the bodies at the indices of `p`.
pub open spec fn is_contact(c: CData, objs: Seq<PhysObj>, p: (int, int)) -> bool {
    let a = objs[p.0];
    let b = objs[p.1];
    c.normal@ == normal_c(a.collider, b.collider) && c.depth == depth_c(a.collider, b.collider)
        && c.id_a == a.id && c.id_b == b.id
}

pub open spec fn all_wf(objs: Seq<PhysObj>) -> bool {
    forall|k: int| 0 <= k < objs.len() ==> (#[trigger] objs[k]).collider.wf()
}

/// `out` is `before` followed by the contact records of the pairs `hp`.
pub open spec fn appended(out: Seq<CData>, before: Seq<CData>, objs: Seq<PhysObj>, hp: Seq<(int, int)>) -> bool {
    out.len() == before.len() + hp.len() && (forall|k: int|
        0 <= k < before.len() ==> out[k] == before[k]) && (forall|k: int|
        0 <= k < hp.len() ==> is_contact(#[trigger] out[before.len() + k], objs, hp[k]))
}

/// Tests every unordered pair of bodies, in the order of `pairs`, and appends a
/// contact record to `collisions` for each pair that overlaps.
pub fn narrow_phase(collisions: &mut Vec<CData>, objects: &Vec<PhysObj>)
    requires
        all_wf(objects@),
    ensures
        appended(
            final(collisions)@,
            old(collisions)@,
            objects@,
            hit_pairs(objects@, pairs(objects@.len() as int)),
        ),
{
    let ghost before = collisions@;
    let ghost objs = objects@;
    let n = objects.len();
    let mut i: usize = 0;
    while i < n
        invariant
            n == objs.len(),
            objs == objects@,
            all_wf(objs),
            i <= n,
            appended(collisions@, before, objs, hit_pairs(objs, rows(i as int, n as int))),
        decreases n - i,
    {
        let mut j: usize = i + 1;
        proof {
            assert(rows(i as int, n as int) + row(i as int, j as int) =~= rows(i as int, n as int));
        }
        while j < n
            invariant
                n == objs.len(),
                objs == objects@,
                all_wf(objs),
                i < n,
                i < j <= n,
                appended(
                    collisions@,
                    before,
                    objs,
                    hit_pairs(objs, rows(i as int, n as int) + row(i as int, j as int)),
                ),
            decreases n - j,
        {
            let ghost done = rows(i as int, n as int) + row(i as int, j as int);
            let ghost next = rows(i as int, n as int) + row(i as int, j as int + 1);
            proof {
                assert(next.drop_last() =~= done);
                assert(next.last() == (i as int, j as int));
            }
            let obj_a = &objects[i];
            let obj_b = &objects[j];
            proof {
                assert(objs[i as int].collider.wf());
                assert(objs[j as int].collider.wf());
            }
            let mut simplex: Vec<Vec3> = Vec::new();
            if gjk(&mut simplex, obj_a.collider(), obj_b.collider()) {
                let (normal, depth) = sphere_contact(obj_a.collider(), obj_b.collider());
                let ghost c0 = collisions@;
                collisions.push(CData { normal, depth, id_a: obj_a.id, id_b: obj_b.id });
                proof {
                    let hp = hit_pairs(objs, done);
                    assert(hit_pairs(objs, next) == hp.push((i as int, j as int)));
                    assert forall|k: int| 0 <= k < hp.len() + 1 implies is_contact(
                        #[trigger] collisions@[before.len() + k],
                        objs,
                        hp.push((i as int, j as int))[k],
                    ) by {
                        if k < hp.len() {
                            assert(collisions@[before.len() + k] == c0[before.len() + k]);
                        }
                    }
                }
            } else {
                proof {
                    assert(hit_pairs(objs, next) == hit_pairs(objs, done));
                }
            }
            j = j + 1;
        }
        proof {
            assert(rows(i as int + 1, n as int) == rows(i as int, n as int) + row(i as int, n as int));
        }
        i = i + 1;
    }
}

/// Collects the contacts of one simulation step (see `narrow_phase`).
pub fn get_collisions(collisions: &mut Vec<CData>, objects: &Vec<PhysObj>)
    requires
        all_wf(objects@),
    ensures
        appended(
            final(collisions)@,
            old(collisions)@,
            objects@,
            hit_pairs(objects@, pairs(objects@.len() as int)),
        ),
{
    narrow_phase(collisions, objects);
}

proof fn lemma_rows(i: int, n: int)
    requires
        0 <= i <= n,
    ensures
        2 * rows(i, n).len() == i * (2 * n - i - 1),
        forall|k: int|
            0 <= k < rows(i, n).len() ==> 0 <= (#[trigger] rows(i, n)[k]).0 < i && rows(
                i,
                n,
            )[k].0 < rows(i, n)[k].1 < n && k == pair_index(rows(i, n)[k].0, rows(i, n)[k].1, n),
        forall|p: int, q: int|
            0 <= p < i && p < q < n ==> 0 <= #[trigger] pair_index(p, q, n) < rows(i, n).len()
                && rows(i, n)[pair_index(p, q, n)] == (p, q),
    decreases i,
{
    if i > 0 {
        lemma_rows(i - 1, n);
        let prev = rows(i - 1, n);
        let r = row(i - 1, n);
        let all = rows(i, n);
        assert(all == prev + r);
        assert(r.len() == n - i);
        assert(2 * all.len() == i * (2 * n - i - 1)) by (nonlinear_arith)
            requires
                2 * prev.len() == (i - 1) * (2 * n - (i - 1) - 1),
                all.len() == prev.len() + (n - i),
        ;
        assert forall|k: int| 0 <= k < all.len() implies 0 <= (#[trigger] all[k]).0 < i
            && all[k].0 < all[k].1 < n && k == pair_index(all[k].0, all[k].1, n) by {
            if k < prev.len() {
                assert(all[k] == prev[k]);
            } else {
                assert(all[k] == r[k - prev.len()]);
            }
        }
        assert forall|p: int, q: int| 0 <= p < i && p < q < n implies 0 <= #[trigger] pair_index(
            p,
            q,
            n,
        ) < all.len() && all[pair_index(p, q, n)] == (p, q) by {
            if p < i - 1 {
                assert(all[pair_index(p, q, n)] == prev[pair_index(p, q, n)]);
            } else {
                assert(pair_index(p, q, n) == prev.len() + q - i);
                assert(all[pair_index(p, q, n)] == r[q - i]);
            }
        }
    } else {
        assert(i * (2 * n - i - 1) == 0) by (nonlinear_arith)
            requires
                i == 0,
        ;
    }
}

/// For `n` bodies the driver visits exactly `n * (n - 1) / 2` pairs: each pair
/// `(i, j)` with `i < j < n` once, and no pair of a body with itself.
pub proof fn lemma_pairs_complete(n: int)
    requires
        0 <= n,
    ensures
        pairs(n).len() == n * (n - 1) / 2,
        forall|k: int|
            0 <= k < pairs(n).len() ==> 0 <= (#[trigger] pairs(n)[k]).0 < pairs(n)[k].1 < n,
        forall|k1: int, k2: int|
            0 <= k1 < pairs(n).len() && 0 <= k2 < pairs(n).len() && #[trigger] pairs(n)[k1]
                == #[trigger] pairs(n)[k2] ==> k1 == k2,
        forall|i: int, j: int| 0 <= i < j < n ==> #[trigger] pairs(n).contains((i, j)),
{
    lemma_rows(n, n);
    assert(2 * pairs(n).len() == n * (n - 1));
    assert forall|i: int, j: int| 0 <= i < j < n implies #[trigger] pairs(n).contains((i, j)) by {
        assert(pairs(n)[pair_index(i, j, n)] == (i, j));
    }
}

proof fn lemma_scale_comp_neg(c: int, len: int, s: int)
    requires
        0 < s,
    ensures
        scale_comp(-c, len, s) == -scale_comp(c, len, s),
{
    if c == 0 {
        lemma_div_of0(s);
        assert(0 * len == 0);
    }
}

/// Swapping two bodies with distinct centers negates the contact normal and
/// keeps the penetration depth.
pub proof fn lemma_contact_swap(a: Sphere, b: Sphere)
    requires
        a.pos@ != b.pos@,
    ensures
        normal_c(b, a) == neg_c(normal_c(a, b)),
        depth_c(b, a) == depth_c(a, b),
{
    let d = sub_c(b.pos@, a.pos@);
    let e = sub_c(a.pos@, b.pos@);
    assert(e == neg_c(d));
    assert(dot_c(e, e) == dot_c(d, d)) by (nonlinear_arith)
        requires
            e == neg_c(d),
    ;
    assert(!is_zero_c(d));
    let n = dot_c(d, d);
    assert(n > 0) by (nonlinear_arith)
        requires
            n == dot_c(d, d),
            !is_zero_c(d),
    ;
    let s = ceil_sqrt(n);
    lemma_ceil_sqrt_exists(n);
    assert(s > 0) by {
        if s == 0 {
            assert(s * s == 0) by (nonlinear_arith)
                requires
                    s == 0,
            ;
        }
    }
    let len = NORMAL_LENGTH as int;
    lemma_scale_comp_neg(d.x, len, s);
    lemma_scale_comp_neg(d.y, len, s);
    lemma_scale_comp_neg(d.z, len, s);
    let n2 = n * (len * len);
    assert(n2 > 0) by (nonlinear_arith)
        requires
            n2 == n * (len * len),
            n > 0,
            len == 0x1_0000,
    ;
    let s2 = ceil_sqrt(n2);
    lemma_ceil_sqrt_exists(n2);
    assert(s2 > 0) by {
        if s2 == 0 {
            assert(s2 * s2 == 0) by (nonlinear_arith)
                requires
                    s2 == 0,
            ;
        }
    }
    lemma_scale_comp_neg(d.x, len * len, s2);
    lemma_scale_comp_neg(d.y, len * len, s2);
    lemma_scale_comp_neg(d.z, len * len, s2);
}

} // verus!
