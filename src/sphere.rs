use vstd::prelude::*;
use vstd::arithmetic::div_mod::{lemma_fundamental_div_mod, lemma_mod_pos_bound};
use crate::vec3::{
    Coords, Vec3, WIDE_LIMIT, add_c, bounded, coords, dot_c, is_zero_c, sub_c, lemma_dot_bound,
    lemma_mul_bound,
};

verus! {

/// Largest magnitude of a sphere's center coordinates and of its radius.
pub const MAX_EXTENT: i64 = 0x2_0000;

/// `r` is the least non-negative integer whose square is at least `n`.
pub open spec fn is_ceil_sqrt(n: int, r: int) -> bool {
    r >= 0 && r * r >= n && (r == 0 || (r - 1) * (r - 1) < n)
}

/// The rounded-up square root of `n`.
pub open spec fn ceil_sqrt(n: int) -> int {
    choose|r: int| is_ceil_sqrt(n, r)
}

pub proof fn lemma_ceil_sqrt_unique(n: int, r1: int, r2: int)
    requires
        is_ceil_sqrt(n, r1),
        is_ceil_sqrt(n, r2),
    ensures
        r1 == r2,
{
    if r1 < r2 {
        assert((r2 - 1) * (r2 - 1) >= r1 * r1) by (nonlinear_arith)
            requires
                0 <= r1 <= r2 - 1,
        ;
    } else if r2 < r1 {
        assert((r1 - 1) * (r1 - 1) >= r2 * r2) by (nonlinear_arith)
            requires
                0 <= r2 <= r1 - 1,
        ;
    }
}

/// Every non-negative integer has a rounded-up square root.
pub proof fn lemma_ceil_sqrt_exists(n: int)
    requires
        0 <= n,
    ensures
        is_ceil_sqrt(n, ceil_sqrt(n)),
    decreases n,
{
    if n == 0 {
        assert(is_ceil_sqrt(0, 0));
    } else {
        lemma_ceil_sqrt_exists(n - 1);
        let r = ceil_sqrt(n - 1);
        if r * r >= n {
            assert(is_ceil_sqrt(n, r));
        } else {
            assert((r + 1) * (r + 1) >= n) by (nonlinear_arith)
                requires
                    r >= 0,
                    r * r >= n - 1,
            ;
            assert(is_ceil_sqrt(n, r + 1));
        }
    }
}

/// Once some root is known, `ceil_sqrt` names exactly that root.
pub proof fn lemma_ceil_sqrt_is(n: int, r: int)
    requires
        is_ceil_sqrt(n, r),
    ensures
        ceil_sqrt(n) == r,
{
    assert(is_ceil_sqrt(n, ceil_sqrt(n)));
    lemma_ceil_sqrt_unique(n, r, ceil_sqrt(n));
}

/// Rounded-up integer square root, by bisection.
pub fn ceil_sqrt_u128(n: u128) -> (r: u128)
    requires
        n < 0x4000_0000_0000_0000_0000_0000_0000_0000,
    ensures
        is_ceil_sqrt(n as int, r as int),
        r <= 0x8000_0000_0000_0000,
{
    if n == 0 {
        return 0;
    }
    let mut lo: u128 = 0;
    let mut hi: u128 = 0x8000_0000_0000_0000;
    assert(hi * hi == 0x4000_0000_0000_0000_0000_0000_0000_0000);
    while hi - lo > 1
        invariant
            lo < hi <= 0x8000_0000_0000_0000,
            lo * lo < n,
            hi * hi >= n,
        decreases hi - lo,
    {
        let mid: u128 = lo + (hi - lo) / 2;
        assert(mid * mid <= 0x4000_0000_0000_0000_0000_0000_0000_0000) by (nonlinear_arith)
            requires
                mid <= 0x8000_0000_0000_0000,
        ;
        if mid * mid >= n {
            hi = mid;
        } else {
            lo = mid;
        }
    }
    hi
}

/// One component of `c` rescaled by `len / s`, rounded toward zero.
pub open spec fn scale_comp(c: int, len: int, s: int) -> int {
    if c >= 0 {
        (c * len) / s
    } else {
        -((-c * len) / s)
    }
}

/// `d` rescaled to length `len`, each component rounded toward zero; the zero
/// vector stays zero. A direction at least `len` long is divided by its
/// rounded-up length; a shorter one is first multiplied by `len`, so that the
/// rounding of the square root costs less than one unit either way.
pub open spec fn scale_c(d: Coords, len: int) -> Coords {
    if is_zero_c(d) {
        d
    } else if dot_c(d, d) >= len * len {
        let s = ceil_sqrt(dot_c(d, d));
        coords(scale_comp(d.x, len, s), scale_comp(d.y, len, s), scale_comp(d.z, len, s))
    } else {
        let s = ceil_sqrt(dot_c(d, d) * (len * len));
        let l = len * len;
        coords(scale_comp(d.x, l, s), scale_comp(d.y, l, s), scale_comp(d.z, l, s))
    }
}

pub open spec fn abs(x: int) -> int {
    if x < 0 {
        -x
    } else {
        x
    }
}

proof fn lemma_le_of_sq_le(m: int, s: int)
    requires
        0 <= m,
        0 <= s,
        m * m <= s * s,
    ensures
        m <= s,
{
    if m > s {
        assert(m * m > s * s) by (nonlinear_arith)
            requires
                0 <= s < m,
        ;
    }
}

proof fn lemma_floor_div(x: int, s: int)
    requires
        0 <= x,
        0 < s,
    ensures
        0 <= x / s,
        (x / s) * s <= x < (x / s + 1) * s,
{
    lemma_fundamental_div_mod(x, s);
    lemma_mod_pos_bound(x, s);
    let q = x / s;
    assert(q * s == s * q && (q + 1) * s == q * s + s) by (nonlinear_arith);
    assert(q >= 0) by (nonlinear_arith)
        requires
            x >= 0,
            x < q * s + s,
            s > 0,
    ;
}

/// One component `c` rescaled by `l / s`, rounded toward zero; `|c| * l` must
/// not exceed `s * len`.
fn scale_component(c: i64, l: u128, s: u128, len: i64) -> (r: i64)
    requires
        -WIDE_LIMIT <= c <= WIDE_LIMIT,
        l <= 0x4_0000_0000,
        0 < s,
        0 <= len <= MAX_EXTENT,
        abs(c as int) * l <= s * len,
    ensures
        r == scale_comp(c as int, l as int, s as int),
        -len <= r <= len,
        abs(r as int) * s <= abs(c as int) * l < (abs(r as int) + 1) * s,
{
    let m: u128 = if c < 0 {
        (-(c as i128)) as u128
    } else {
        c as u128
    };
    proof {
        lemma_mul_bound(m as int, l as int, WIDE_LIMIT as int, 0x4_0000_0000);
        lemma_floor_div(m * l, s as int);
        let q = (m * l) / (s as int);
        assert(q <= len) by (nonlinear_arith)
            requires
                q * s <= m * l,
                m * l <= s * len,
                0 < s,
        ;
    }
    let q: u128 = m * l / s;
    if c < 0 {
        -(q as i64)
    } else {
        q as i64
    }
}

proof fn lemma_sum_sq_le(a: int, b: int, c: int, x: int, y: int, z: int)
    requires
        0 <= a <= x,
        0 <= b <= y,
        0 <= c <= z,
    ensures
        a * a + b * b + c * c <= x * x + y * y + z * z,
{
    assert(a * a <= x * x) by (nonlinear_arith)
        requires
            0 <= a <= x,
    ;
    assert(b * b <= y * y) by (nonlinear_arith)
        requires
            0 <= b <= y,
    ;
    assert(c * c <= z * z) by (nonlinear_arith)
        requires
            0 <= c <= z,
    ;
}

proof fn lemma_sum_scaled(a: int, b: int, c: int, k: int)
    ensures
        (a * k) * (a * k) + (b * k) * (b * k) + (c * k) * (c * k) == (a * a + b * b + c * c) * (k
            * k),
{
    assert((a * k) * (a * k) == (a * a) * (k * k)) by (nonlinear_arith);
    assert((b * k) * (b * k) == (b * b) * (k * k)) by (nonlinear_arith);
    assert((c * k) * (c * k) == (c * c) * (k * k)) by (nonlinear_arith);
    assert((a * a + b * b + c * c) * (k * k) == (a * a) * (k * k) + (b * b) * (k * k) + (c * c)
        * (k * k)) by (nonlinear_arith);
}

/// Length bounds of a rescaled vector, from the rounding of each component:
/// `q` are the magnitudes of the result, `m` those of the input, and the
/// result is `m * l / s` rounded down, where `s` is within one of the exact
/// length times `l / len`.
proof fn lemma_scaled_length(
    qx: int,
    qy: int,
    qz: int,
    mx: int,
    my: int,
    mz: int,
    l: int,
    s: int,
    len: int,
)
    requires
        0 <= qx,
        0 <= qy,
        0 <= qz,
        0 <= mx,
        0 <= my,
        0 <= mz,
        0 < s,
        0 < len <= s,
        0 <= l,
        qx * s <= mx * l < (qx + 1) * s,
        qy * s <= my * l < (qy + 1) * s,
        qz * s <= mz * l < (qz + 1) * s,
        (mx * mx + my * my + mz * mz) * (l * l) <= (s * s) * (len * len),
        ((s - 1) * (s - 1)) * (len * len) <= (mx * mx + my * my + mz * mz) * (l * l),
    ensures
        qx * qx + qy * qy + qz * qz <= len * len,
        len >= 3 ==> (len - 3) * (len - 3) <= qx * qx + qy * qy + qz * qz,
{
    let n = mx * mx + my * my + mz * mz;
    let q2 = qx * qx + qy * qy + qz * qz;
    lemma_sum_sq_le(qx * s, qy * s, qz * s, mx * l, my * l, mz * l);
    lemma_sum_scaled(qx, qy, qz, s);
    lemma_sum_scaled(mx, my, mz, l);
    assert(q2 * (s * s) <= n * (l * l));
    assert(q2 <= len * len) by (nonlinear_arith)
        requires
            q2 * (s * s) <= (s * s) * (len * len),
            0 < s,
    ;
    lemma_sum_sq_le(mx * l, my * l, mz * l, (qx + 1) * s, (qy + 1) * s, (qz + 1) * s);
    let p2 = (qx + 1) * (qx + 1) + (qy + 1) * (qy + 1) + (qz + 1) * (qz + 1);
    lemma_sum_scaled(qx + 1, qy + 1, qz + 1, s);
    assert(n * (l * l) <= p2 * (s * s));
    assert((len - 1) * s <= (s - 1) * len) by (nonlinear_arith)
        requires
            0 < len <= s,
    ;
    assert(((len - 1) * (len - 1)) * (s * s) <= ((s - 1) * (s - 1)) * (len * len)) by (
    nonlinear_arith)
        requires
            0 <= (len - 1) * s <= (s - 1) * len,
    ;
    assert((len - 1) * (len - 1) <= p2) by (nonlinear_arith)
        requires
            ((len - 1) * (len - 1)) * (s * s) <= p2 * (s * s),
            0 < s,
    ;
    if len >= 3 && q2 < (len - 3) * (len - 3) {
        let t = qx + qy + qz;
        assert(t * t <= 3 * q2) by (nonlinear_arith)
            requires
                t == qx + qy + qz,
                q2 == qx * qx + qy * qy + qz * qz,
        ;
        assert(t < 2 * (len - 3)) by (nonlinear_arith)
            requires
                t * t <= 3 * q2,
                q2 < (len - 3) * (len - 3),
                0 <= t,
                len >= 3,
        ;
        assert(p2 == q2 + 2 * t + 3) by (nonlinear_arith)
            requires
                t == qx + qy + qz,
                q2 == qx * qx + qy * qy + qz * qz,
                p2 == (qx + 1) * (qx + 1) + (qy + 1) * (qy + 1) + (qz + 1) * (qz + 1),
        ;
        assert(p2 < (len - 1) * (len - 1)) by (nonlinear_arith)
            requires
                p2 == q2 + 2 * t + 3,
                t < 2 * (len - 3),
                q2 < (len - 3) * (len - 3),
        ;
    }
}

/// Rescales `d` to length `len` (see `scale_c`). The result is never longer
/// than `len`, and for a non-zero `d` falls short of it by less than three units.
pub fn scale_to(d: Vec3, len: i64) -> (r: Vec3)
    requires
        bounded(d@, WIDE_LIMIT as int),
        0 <= len <= MAX_EXTENT,
    ensures
        r@ == scale_c(d@, len as int),
        bounded(r@, len as int),
        dot_c(r@, r@) <= len * len,
        !is_zero_c(d@) && len >= 3 ==> (len - 3) * (len - 3) <= dot_c(r@, r@),
{
    if d.is_zero() {
        assert(dot_c(d@, d@) <= len * len) by (nonlinear_arith)
            requires
                is_zero_c(d@),
        ;
        return d;
    }
    let n: i128 = d.dot(d);
    let ghost ni = dot_c(d@, d@);
    let ghost li = len as int;
    proof {
        lemma_dot_bound(d@, d@, WIDE_LIMIT as int, WIDE_LIMIT as int);
        assert(d@.x * d@.x >= 0 && d@.y * d@.y >= 0 && d@.z * d@.z >= 0) by (nonlinear_arith);
        assert(ni >= 1) by (nonlinear_arith)
            requires
                ni == d@.x * d@.x + d@.y * d@.y + d@.z * d@.z,
                d@.x != 0 || d@.y != 0 || d@.z != 0,
        ;
        assert(li * li <= 0x4_0000_0000) by (nonlinear_arith)
            requires
                0 <= li <= 0x2_0000,
        ;
    }
    let len2: i128 = (len as i128) * (len as i128);
    let (l, s): (u128, u128) = if n >= len2 {
        (len as u128, ceil_sqrt_u128(n as u128))
    } else {
        proof {
            assert(ni * (li * li) < 0x4_0000_0000 * 0x4_0000_0000) by (nonlinear_arith)
                requires
                    0 <= ni < li * li,
                    li * li <= 0x4_0000_0000,
            ;
        }
        (len2 as u128, ceil_sqrt_u128((n * len2) as u128))
    };
    let ghost si = s as int;
    let ghost big = ni >= li * li;
    proof {
        if big {
            lemma_ceil_sqrt_is(ni, si);
            assert(si >= li) by {
                if si < li {
                    assert(si * si < li * li) by (nonlinear_arith)
                        requires
                            0 <= si < li,
                    ;
                }
            }
            assert(ni * (li * li) <= (si * si) * (li * li)) by (nonlinear_arith)
                requires
                    ni <= si * si,
            ;
            assert(si != 0) by {
                if si == 0 {
                    assert(si * si == 0) by (nonlinear_arith)
                        requires
                            si == 0,
                    ;
                }
            }
            assert(((si - 1) * (si - 1)) * (li * li) <= ni * (li * li)) by (nonlinear_arith)
                requires
                    (si - 1) * (si - 1) < ni,
            ;
        } else {
            lemma_ceil_sqrt_is(ni * (li * li), si);
            assert(si >= li) by {
                if si < li {
                    assert(si * si < li * li) by (nonlinear_arith)
                        requires
                            0 <= si < li,
                    ;
                    assert(ni * (li * li) >= li * li) by (nonlinear_arith)
                        requires
                            ni >= 1,
                    ;
                }
            }
            assert(ni * ((li * li) * (li * li)) <= (si * si) * (li * li)) by (nonlinear_arith)
                requires
                    ni * (li * li) <= si * si,
            ;
            assert(si != 0) by {
                if si == 0 {
                    assert(si * si == 0) by (nonlinear_arith)
                        requires
                            si == 0,
                    ;
                    assert(ni * (li * li) >= 1) by (nonlinear_arith)
                        requires
                            ni >= 1,
                            li >= 1,
                    ;
                }
            }
            assert(((si - 1) * (si - 1)) * (li * li) <= ni * ((li * li) * (li * li))) by (
            nonlinear_arith)
                requires
                    (si - 1) * (si - 1) < ni * (li * li),
            ;
        }
    }
    let ghost lg = l as int;
    proof {
        if big {
            assert(lg == li);
        } else {
            assert(lg == li * li);
        }
        assert(ni * (lg * lg) <= (si * si) * (li * li));
        assert(((si - 1) * (si - 1)) * (li * li) <= ni * (lg * lg));
        lemma_component_fits(d@.x, d@.y, d@.z, lg, si, li);
        lemma_component_fits(d@.y, d@.x, d@.z, lg, si, li);
        lemma_component_fits(d@.z, d@.y, d@.x, lg, si, li);
        assert(lg <= 0x4_0000_0000);
    }
    let x = scale_component(d.x, l, s, len);
    let y = scale_component(d.y, l, s, len);
    let z = scale_component(d.z, l, s, len);
    let r = Vec3 { x, y, z };
    proof {
        let (qx, qy, qz) = (abs(x as int), abs(y as int), abs(z as int));
        let (mx, my, mz) = (abs(d@.x), abs(d@.y), abs(d@.z));
        assert(qx * qx == x * x && qy * qy == y * y && qz * qz == z * z) by (nonlinear_arith)
            requires
                qx == abs(x as int),
                qy == abs(y as int),
                qz == abs(z as int),
        ;
        assert(mx * mx + my * my + mz * mz == ni) by (nonlinear_arith)
            requires
                mx == abs(d@.x),
                my == abs(d@.y),
                mz == abs(d@.z),
                ni == d@.x * d@.x + d@.y * d@.y + d@.z * d@.z,
        ;
        if li > 0 {
            lemma_scaled_length(qx, qy, qz, mx, my, mz, lg, si, li);
        } else {
            assert(x == 0 && y == 0 && z == 0);
            assert(x * x + y * y + z * z == 0) by (nonlinear_arith)
                requires
                    x == 0 && y == 0 && z == 0,
            ;
        }
        if big {
            lemma_ceil_sqrt_is(ni, si);
        } else {
            lemma_ceil_sqrt_is(ni * (li * li), si);
        }
    }
    r
}

/// A component of `d`, times `l`, is at most `s * len` when the whole vector is.
proof fn lemma_component_fits(c: int, e: int, f: int, l: int, s: int, len: int)
    requires
        (c * c + e * e + f * f) * (l * l) <= (s * s) * (len * len),
        0 <= l,
        0 <= s,
        0 <= len,
    ensures
        abs(c) * l <= s * len,
{
    let m = abs(c);
    assert((m * l) * (m * l) <= (s * len) * (s * len)) by (nonlinear_arith)
        requires
            (c * c + e * e + f * f) * (l * l) <= (s * s) * (len * len),
            m == abs(c),
    ;
    assert(0 <= m * l) by (nonlinear_arith)
        requires
            m >= 0,
            l >= 0,
    ;
    assert(0 <= s * len) by (nonlinear_arith)
        requires
            s >= 0,
            len >= 0,
    ;
    lemma_le_of_sq_le(m * l, s * len);
}

/// A sphere given by its center and radius.
#[derive(Clone, Copy, Debug, PartialEq, Eq, Structural)]
pub struct Sphere {
    pub pos: Vec3,
    pub radius: i64,
}

impl Sphere {
    /// The center and radius lie within `MAX_EXTENT`, and the radius is not negative.
    pub open spec fn wf(&self) -> bool {
        bounded(self.pos@, MAX_EXTENT as int) && 0 <= self.radius <= MAX_EXTENT
    }

    /// The point of the sphere furthest along `d`, up to rounding toward the center.
    pub open spec fn support_c(&self, d: Coords) -> Coords {
        add_c(self.pos@, scale_c(d, self.radius as int))
    }

    pub fn pos(&self) -> (r: Vec3)
        ensures
            r == self.pos,
    {
        self.pos
    }

    pub fn radius(&self) -> (r: i64)
        ensures
            r == self.radius,
    {
        self.radius
    }

    /// The point of the sphere furthest along `direction`: the center moved by
    /// `direction` rescaled to the radius. The point never lies outside the
    /// sphere, and for a non-zero direction lies less than three units inside
    /// its surface. A zero direction gives the center.
    pub fn furthest_point(&self, direction: Vec3) -> (r: Vec3)
        requires
            self.wf(),
            bounded(direction@, WIDE_LIMIT as int),
        ensures
            r@ == self.support_c(direction@),
            bounded(r@, 2 * MAX_EXTENT),
            dot_c(sub_c(r@, self.pos@), sub_c(r@, self.pos@)) <= self.radius * self.radius,
            !is_zero_c(direction@) && self.radius >= 3 ==> (self.radius - 3) * (self.radius - 3)
                <= dot_c(sub_c(r@, self.pos@), sub_c(r@, self.pos@)),
    {
        let offset = scale_to(direction, self.radius);
        let r = self.pos.add(offset);
        assert(sub_c(r@, self.pos@) == offset@);
        r
    }
}

} // verus!
