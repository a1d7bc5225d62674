use vstd::prelude::*;

verus! {

/// Mathematical model of a lattice vector: three unbounded integers.
pub struct Coords {
    pub x: int,
    pub y: int,
    pub z: int,
}

pub open spec fn coords(x: int, y: int, z: int) -> Coords {
    Coords { x, y, z }
}

pub open spec fn add_c(a: Coords, b: Coords) -> Coords {
    coords(a.x + b.x, a.y + b.y, a.z + b.z)
}

pub open spec fn sub_c(a: Coords, b: Coords) -> Coords {
    coords(a.x - b.x, a.y - b.y, a.z - b.z)
}

pub open spec fn neg_c(a: Coords) -> Coords {
    coords(-a.x, -a.y, -a.z)
}

pub open spec fn dot_c(a: Coords, b: Coords) -> int {
    a.x * b.x + a.y * b.y + a.z * b.z
}

pub open spec fn cross_c(a: Coords, b: Coords) -> Coords {
    coords(a.y * b.z - a.z * b.y, a.z * b.x - a.x * b.z, a.x * b.y - a.y * b.x)
}

/// Two vectors point the same way when their dot product is strictly positive.
pub open spec fn same_dir_c(a: Coords, b: Coords) -> bool {
    dot_c(a, b) > 0
}

pub open spec fn is_zero_c(a: Coords) -> bool {
    a.x == 0 && a.y == 0 && a.z == 0
}

/// Every component lies in `[-k, k]`.
pub open spec fn bounded(a: Coords, k: int) -> bool {
    -k <= a.x <= k && -k <= a.y <= k && -k <= a.z <= k
}

/// Every component fits in an `i64`.
pub open spec fn fits(a: Coords) -> bool {
    i64::MIN <= a.x <= i64::MAX && i64::MIN <= a.y <= i64::MAX && i64::MIN <= a.z <= i64::MAX
}

/// Largest component magnitude accepted by `dot` and `cross`.
pub const WIDE_LIMIT: i64 = 0x4000_0000_0000_0000;

/// A vector of the integer lattice.
#[derive(Clone, Copy, Debug, PartialEq, Eq, Structural)]
pub struct Vec3 {
    pub x: i64,
    pub y: i64,
    pub z: i64,
}

impl View for Vec3 {
    type V = Coords;

    open spec fn view(&self) -> Coords {
        coords(self.x as int, self.y as int, self.z as int)
    }
}

pub proof fn lemma_mul_bound(a: int, b: int, ka: int, kb: int)
    requires
        -ka <= a <= ka,
        -kb <= b <= kb,
    ensures
        -(ka * kb) <= a * b <= ka * kb,
{
    assert(-(ka * kb) <= a * b <= ka * kb) by (nonlinear_arith)
        requires
            -ka <= a <= ka,
            -kb <= b <= kb,
    ;
}

/// Components of a cross product are at most twice the product of the bounds.
pub proof fn lemma_cross_bound(a: Coords, b: Coords, ka: int, kb: int)
    requires
        bounded(a, ka),
        bounded(b, kb),
    ensures
        bounded(cross_c(a, b), 2 * (ka * kb)),
{
    lemma_mul_bound(a.x, b.y, ka, kb);
    lemma_mul_bound(a.x, b.z, ka, kb);
    lemma_mul_bound(a.y, b.x, ka, kb);
    lemma_mul_bound(a.y, b.z, ka, kb);
    lemma_mul_bound(a.z, b.x, ka, kb);
    lemma_mul_bound(a.z, b.y, ka, kb);
}

/// A dot product is at most three times the product of the bounds.
pub proof fn lemma_dot_bound(a: Coords, b: Coords, ka: int, kb: int)
    requires
        bounded(a, ka),
        bounded(b, kb),
    ensures
        -(3 * (ka * kb)) <= dot_c(a, b) <= 3 * (ka * kb),
{
    lemma_mul_bound(a.x, b.x, ka, kb);
    lemma_mul_bound(a.y, b.y, ka, kb);
    lemma_mul_bound(a.z, b.z, ka, kb);
}

impl Vec3 {
    pub fn new(x: i64, y: i64, z: i64) -> (r: Vec3)
        ensures
            r@ == coords(x as int, y as int, z as int),
    {
        Vec3 { x, y, z }
    }

    pub fn zero() -> (r: Vec3)
        ensures
            is_zero_c(r@),
    {
        Vec3 { x: 0, y: 0, z: 0 }
    }

    pub fn add(self, o: Vec3) -> (r: Vec3)
        requires
            fits(add_c(self@, o@)),
        ensures
            r@ == add_c(self@, o@),
    {
        Vec3 { x: self.x + o.x, y: self.y + o.y, z: self.z + o.z }
    }

    pub fn sub(self, o: Vec3) -> (r: Vec3)
        requires
            fits(sub_c(self@, o@)),
        ensures
            r@ == sub_c(self@, o@),
    {
        Vec3 { x: self.x - o.x, y: self.y - o.y, z: self.z - o.z }
    }

    pub fn neg(self) -> (r: Vec3)
        requires
            fits(neg_c(self@)),
        ensures
            r@ == neg_c(self@),
    {
        Vec3 { x: -self.x, y: -self.y, z: -self.z }
    }

    pub fn is_zero(self) -> (r: bool)
        ensures
            r == is_zero_c(self@),
    {
        self.x == 0 && self.y == 0 && self.z == 0
    }

    pub fn dot(self, o: Vec3) -> (r: i128)
        requires
            bounded(self@, WIDE_LIMIT as int),
            bounded(o@, WIDE_LIMIT as int),
        ensures
            r == dot_c(self@, o@),
    {
        proof {
            lemma_mul_bound(self.x as int, o.x as int, WIDE_LIMIT as int, WIDE_LIMIT as int);
            lemma_mul_bound(self.y as int, o.y as int, WIDE_LIMIT as int, WIDE_LIMIT as int);
            lemma_mul_bound(self.z as int, o.z as int, WIDE_LIMIT as int, WIDE_LIMIT as int);
        }
        (self.x as i128) * (o.x as i128) + (self.y as i128) * (o.y as i128) + (self.z as i128) * (
        o.z as i128)
    }

    pub fn cross(self, o: Vec3) -> (r: Vec3)
        requires
            bounded(self@, WIDE_LIMIT as int),
            bounded(o@, WIDE_LIMIT as int),
            fits(cross_c(self@, o@)),
        ensures
            r@ == cross_c(self@, o@),
    {
        proof {
            let k = WIDE_LIMIT as int;
            lemma_mul_bound(self.x as int, o.y as int, k, k);
            lemma_mul_bound(self.x as int, o.z as int, k, k);
            lemma_mul_bound(self.y as int, o.x as int, k, k);
            lemma_mul_bound(self.y as int, o.z as int, k, k);
            lemma_mul_bound(self.z as int, o.x as int, k, k);
            lemma_mul_bound(self.z as int, o.y as int, k, k);
        }
        let x: i128 = (self.y as i128) * (o.z as i128) - (self.z as i128) * (o.y as i128);
        let y: i128 = (self.z as i128) * (o.x as i128) - (self.x as i128) * (o.z as i128);
        let z: i128 = (self.x as i128) * (o.y as i128) - (self.y as i128) * (o.x as i128);
        Vec3 { x: x as i64, y: y as i64, z: z as i64 }
    }

    /// Whether the two vectors point the same way: `dot(self, o) > 0`.
    pub fn same_direction(self, o: Vec3) -> (r: bool)
        requires
            bounded(self@, WIDE_LIMIT as int),
            bounded(o@, WIDE_LIMIT as int),
        ensures
            r == same_dir_c(self@, o@),
    {
        self.dot(o) > 0
    }
}

} // verus!
