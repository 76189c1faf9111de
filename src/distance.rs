//! Distances between coordinate vectors: Manhattan, Euclidean and squared
//! Euclidean. Coordinates are paired index by index; components beyond the
//! shorter vector are ignored.

use vstd::prelude::*;

use crate::types::Node;

verus! {

/// Absolute difference of two coordinates.
pub open spec fn gap(a: i64, b: i64) -> int {
    if a >= b {
        a - b
    } else {
        b - a
    }
}

/// Number of coordinate pairs that two vectors share.
pub open spec fn shared_dims(a: Seq<i64>, b: Seq<i64>) -> nat {
    if a.len() <= b.len() {
        a.len()
    } else {
        b.len()
    }
}

/// Sum of the absolute differences over the first `n` pairs.
pub open spec fn manhattan_upto(a: Seq<i64>, b: Seq<i64>, n: nat) -> int
    decreases n,
{
    if n == 0 {
        0
    } else {
        manhattan_upto(a, b, (n - 1) as nat) + gap(a[n - 1], b[n - 1])
    }
}

/// Sum of the squared differences over the first `n` pairs.
pub open spec fn squared_upto(a: Seq<i64>, b: Seq<i64>, n: nat) -> int
    decreases n,
{
    if n == 0 {
        0
    } else {
        squared_upto(a, b, (n - 1) as nat) + gap(a[n - 1], b[n - 1]) * gap(a[n - 1], b[n - 1])
    }
}

/// The Manhattan distance of two coordinate vectors.
pub open spec fn manhattan_spec(a: Seq<i64>, b: Seq<i64>) -> int {
    manhattan_upto(a, b, shared_dims(a, b))
}

/// The squared Euclidean distance of two coordinate vectors.
pub open spec fn squared_euclidean_spec(a: Seq<i64>, b: Seq<i64>) -> int {
    squared_upto(a, b, shared_dims(a, b))
}

/// The integer square root, rounded down.
pub open spec fn floor_sqrt(v: nat) -> nat
    decreases v,
{
    if v == 0 {
        0
    } else {
        let r = floor_sqrt((v - 1) as nat);
        if (r + 1) * (r + 1) <= v {
            (r + 1) as nat
        } else {
            r
        }
    }
}

/// `r` is the square root of `v`, rounded down.
pub open spec fn is_floor_sqrt(r: int, v: int) -> bool {
    0 <= r && r * r <= v < (r + 1) * (r + 1)
}

/// The Euclidean distance of two coordinate vectors, rounded down to an
/// integer; exact wherever the squared distance is a perfect square.
pub open spec fn euclidean_spec(a: Seq<i64>, b: Seq<i64>) -> int {
    floor_sqrt(squared_euclidean_spec(a, b) as nat) as int
}

/// A named distance function, as a graph carries it and as A* uses it.
#[derive(Debug, Clone, Copy, PartialEq, Eq)]
pub enum DistanceFunction {
    Manhattan,
    Euclidean,
    SquaredEuclidean,
}

impl DistanceFunction {
    /// The distance this function gives between two coordinate vectors.
    pub open spec fn spec_of(self, a: Seq<i64>, b: Seq<i64>) -> int {
        match self {
            DistanceFunction::Manhattan => manhattan_spec(a, b),
            DistanceFunction::Euclidean => euclidean_spec(a, b),
            DistanceFunction::SquaredEuclidean => squared_euclidean_spec(a, b),
        }
    }

    /// The distance fits in a `u64` and its computation does not overflow.
    pub open spec fn fits(self, a: Seq<i64>, b: Seq<i64>) -> bool {
        match self {
            DistanceFunction::Euclidean => squared_euclidean_spec(a, b) <= u128::MAX,
            _ => self.spec_of(a, b) <= u64::MAX,
        }
    }

    /// The distance between two coordinate vectors, or `None` where it does
    /// not fit.
    pub fn checked(&self, a: &Vec<i64>, b: &Vec<i64>) -> (r: Option<u64>)
        ensures
            r is Some <==> self.fits(a@, b@),
            r matches Some(d) ==> d == self.spec_of(a@, b@),
    {
        match self {
            DistanceFunction::Manhattan => checked_manhattan(a, b),
            DistanceFunction::Euclidean => {
                match checked_squared_wide(a, b) {
                    Some(s) => {
                        let r = floor_sqrt_u128(s);
                        Some(r)
                    },
                    None => None,
                }
            },
            DistanceFunction::SquaredEuclidean => {
                match checked_squared_wide(a, b) {
                    Some(s) => {
                        if s <= u64::MAX as u128 {
                            Some(s as u64)
                        } else {
                            None
                        }
                    },
                    None => None,
                }
            },
        }
    }

    /// The distance between two nodes.
    pub fn distance(&self, a: &Node, b: &Node) -> (r: u64)
        requires
            self.fits(a.coordinates@, b.coordinates@),
        ensures
            r == self.spec_of(a.coordinates@, b.coordinates@),
    {
        match self.checked(&a.coordinates, &b.coordinates) {
            Some(d) => d,
            None => 0,
        }
    }
}

proof fn lemma_manhattan_monotone(a: Seq<i64>, b: Seq<i64>, n: nat, m: nat)
    requires
        n <= m,
    ensures
        manhattan_upto(a, b, n) <= manhattan_upto(a, b, m),
    decreases m - n,
{
    if n < m {
        lemma_manhattan_monotone(a, b, n, (m - 1) as nat);
    }
}

proof fn lemma_squared_monotone(a: Seq<i64>, b: Seq<i64>, n: nat, m: nat)
    requires
        n <= m,
    ensures
        squared_upto(a, b, n) <= squared_upto(a, b, m),
    decreases m - n,
{
    if n < m {
        lemma_squared_monotone(a, b, n, (m - 1) as nat);
        let g = gap(a[m - 1], b[m - 1]);
        assert(g * g >= 0) by (nonlinear_arith);
    }
}

proof fn lemma_upto_self_and_swap(a: Seq<i64>, b: Seq<i64>, n: nat)
    ensures
        manhattan_upto(a, a, n) == 0,
        squared_upto(a, a, n) == 0,
        manhattan_upto(a, b, n) == manhattan_upto(b, a, n),
        squared_upto(a, b, n) == squared_upto(b, a, n),
    decreases n,
{
    if n > 0 {
        lemma_upto_self_and_swap(a, b, (n - 1) as nat);
    }
}

proof fn lemma_upto_zero(a: Seq<i64>, b: Seq<i64>, n: nat)
    requires
        n <= a.len(),
        n <= b.len(),
        manhattan_upto(a, b, n) == 0 || squared_upto(a, b, n) == 0,
    ensures
        forall|i: int| 0 <= i < n ==> a[i] == b[i],
    decreases n,
{
    if n > 0 {
        let g = gap(a[n - 1], b[n - 1]);
        lemma_manhattan_monotone(a, b, 0, (n - 1) as nat);
        lemma_squared_monotone(a, b, 0, (n - 1) as nat);
        assert(g * g >= 0) by (nonlinear_arith);
        if g != 0 {
            assert(g * g > 0) by (nonlinear_arith)
                requires
                    g > 0,
            ;
        }
        lemma_upto_zero(a, b, (n - 1) as nat);
    }
}

/// Each distance function is zero from a point to itself and symmetric in
/// its arguments; between vectors of one dimension it is zero only where
/// they are equal.
pub proof fn lemma_distance_zero_and_symmetric(f: DistanceFunction, a: Seq<i64>, b: Seq<i64>)
    ensures
        f.spec_of(a, a) == 0,
        f.spec_of(a, b) == f.spec_of(b, a),
        f.fits(a, b) == f.fits(b, a),
        a.len() == b.len() && f.spec_of(a, b) == 0 ==> a == b,
{
    lemma_upto_self_and_swap(a, b, shared_dims(a, b));
    lemma_upto_self_and_swap(a, a, shared_dims(a, a));
    assert(shared_dims(a, b) == shared_dims(b, a));
    assert(floor_sqrt(0) == 0);
    if a.len() == b.len() && f.spec_of(a, b) == 0 {
        let sq = squared_euclidean_spec(a, b);
        lemma_squared_monotone(a, b, 0, shared_dims(a, b));
        if f == DistanceFunction::Euclidean {
            lemma_floor_sqrt(sq as nat);
            assert(is_floor_sqrt(0, sq));
            assert(sq == 0);
        }
        lemma_upto_zero(a, b, a.len());
        assert(a =~= b);
    }
}

/// The Euclidean distance, squared, gives back the squared Euclidean
/// distance wherever the latter is a perfect square; elsewhere it is the
/// square root rounded down.
pub proof fn lemma_euclidean_squared(a: Seq<i64>, b: Seq<i64>)
    ensures
        euclidean_spec(a, b) * euclidean_spec(a, b) <= squared_euclidean_spec(a, b),
        squared_euclidean_spec(a, b) < (euclidean_spec(a, b) + 1) * (euclidean_spec(a, b) + 1),
        forall|k: int|
            k >= 0 && #[trigger] (k * k) == squared_euclidean_spec(a, b) ==> euclidean_spec(a, b)
                * euclidean_spec(a, b) == squared_euclidean_spec(a, b),
{
    let sq = squared_euclidean_spec(a, b);
    lemma_squared_monotone(a, b, 0, shared_dims(a, b));
    lemma_floor_sqrt(sq as nat);
    assert forall|k: int| k >= 0 && #[trigger] (k * k) == sq implies euclidean_spec(a, b)
        * euclidean_spec(a, b) == sq by {
        assert(is_floor_sqrt(k, sq)) by (nonlinear_arith)
            requires
                k >= 0,
                k * k == sq,
        ;
        lemma_floor_sqrt_unique(k, sq);
    }
}

/// Absolute difference of two coordinates, exactly.
fn coordinate_gap(a: i64, b: i64) -> (r: u64)
    ensures
        r == gap(a, b),
{
    if a >= b {
        ((a as i128) - (b as i128)) as u64
    } else {
        ((b as i128) - (a as i128)) as u64
    }
}

fn min_len(a: &Vec<i64>, b: &Vec<i64>) -> (r: usize)
    ensures
        r == shared_dims(a@, b@),
{
    if a.len() <= b.len() {
        a.len()
    } else {
        b.len()
    }
}

fn checked_manhattan(a: &Vec<i64>, b: &Vec<i64>) -> (r: Option<u64>)
    ensures
        r is Some <==> manhattan_spec(a@, b@) <= u64::MAX,
        r matches Some(d) ==> d == manhattan_spec(a@, b@),
{
    let n = min_len(a, b);
    let mut acc: u64 = 0;
    let mut i: usize = 0;
    while i < n
        invariant
            n == shared_dims(a@, b@),
            n <= a.len(),
            n <= b.len(),
            i <= n,
            acc == manhattan_upto(a@, b@, i as nat),
        decreases n - i,
    {
        let g = coordinate_gap(a[i], b[i]);
        if acc > u64::MAX - g {
            proof {
                lemma_manhattan_monotone(a@, b@, (i + 1) as nat, n as nat);
            }
            return None;
        }
        acc = acc + g;
        i = i + 1;
    }
    Some(acc)
}

/// The squared Euclidean distance, computed in 128 bits.
fn checked_squared_wide(a: &Vec<i64>, b: &Vec<i64>) -> (r: Option<u128>)
    ensures
        r is Some <==> squared_euclidean_spec(a@, b@) <= u128::MAX,
        r matches Some(d) ==> d == squared_euclidean_spec(a@, b@),
{
    let n = min_len(a, b);
    let mut acc: u128 = 0;
    let mut i: usize = 0;
    while i < n
        invariant
            n == shared_dims(a@, b@),
            n <= a.len(),
            n <= b.len(),
            i <= n,
            acc == squared_upto(a@, b@, i as nat),
        decreases n - i,
    {
        let g = coordinate_gap(a[i], b[i]) as u128;
        assert(g * g <= u64::MAX * u64::MAX) by (nonlinear_arith)
            requires
                0 <= g <= u64::MAX,
        ;
        let sq = g * g;
        if acc > u128::MAX - sq {
            proof {
                lemma_squared_monotone(a@, b@, (i + 1) as nat, n as nat);
            }
            return None;
        }
        acc = acc + sq;
        i = i + 1;
    }
    Some(acc)
}

proof fn lemma_floor_sqrt(v: nat)
    ensures
        is_floor_sqrt(floor_sqrt(v) as int, v as int),
    decreases v,
{
    if v > 0 {
        lemma_floor_sqrt((v - 1) as nat);
        let r = floor_sqrt((v - 1) as nat) as int;
        if (r + 1) * (r + 1) <= v {
            assert((r + 1) * (r + 1) <= v < (r + 2) * (r + 2)) by (nonlinear_arith)
                requires
                    (r + 1) * (r + 1) <= v,
                    v - 1 < (r + 1) * (r + 1),
                    r >= 0,
            ;
        }
    }
}

proof fn lemma_floor_sqrt_unique(r: int, v: int)
    requires
        v >= 0,
        is_floor_sqrt(r, v),
    ensures
        r == floor_sqrt(v as nat),
{
    lemma_floor_sqrt(v as nat);
    let s = floor_sqrt(v as nat) as int;
    if r < s {
        assert((r + 1) * (r + 1) <= s * s) by (nonlinear_arith)
            requires
                0 <= r < s,
        ;
    } else if s < r {
        assert((s + 1) * (s + 1) <= r * r) by (nonlinear_arith)
            requires
                0 <= s < r,
        ;
    }
}

/// The square root of a 128-bit value, rounded down, by bisection.
fn floor_sqrt_u128(v: u128) -> (r: u64)
    ensures
        r == floor_sqrt(v as nat),
{
    let mut lo: u128 = 0;
    let mut hi: u128 = 0x1_0000_0000_0000_0000;
    assert(v < hi * hi) by (nonlinear_arith)
        requires
            v <= u128::MAX,
            hi == 0x1_0000_0000_0000_0000u128,
    ;
    while hi - lo > 1
        invariant
            lo < hi <= 0x1_0000_0000_0000_0000u128,
            lo * lo <= v,
            v < hi * hi,
        decreases hi - lo,
    {
        let mid = lo + (hi - lo) / 2;
        assert(mid * mid < 0x1_0000_0000_0000_0000u128 * 0x1_0000_0000_0000_0000u128) by (
        nonlinear_arith)
            requires
                mid < 0x1_0000_0000_0000_0000u128,
        ;
        if mid * mid <= v {
            lo = mid;
        } else {
            hi = mid;
        }
    }
    assert(hi == lo + 1);
    proof {
        lemma_floor_sqrt_unique(lo as int, v as int);
    }
    lo as u64
}

/// The Manhattan distance of two nodes: the sum of the per-dimension
/// absolute differences.
pub fn manhattan_distance(a: &Node, b: &Node) -> (r: u64)
    requires
        manhattan_spec(a.coordinates@, b.coordinates@) <= u64::MAX,
    ensures
        r == manhattan_spec(a.coordinates@, b.coordinates@),
{
    DistanceFunction::Manhattan.distance(a, b)
}

/// The Euclidean distance of two nodes, rounded down to an integer.
pub fn euclidean_distance(a: &Node, b: &Node) -> (r: u64)
    requires
        squared_euclidean_spec(a.coordinates@, b.coordinates@) <= u128::MAX,
    ensures
        r == euclidean_spec(a.coordinates@, b.coordinates@),
        is_floor_sqrt(r as int, squared_euclidean_spec(a.coordinates@, b.coordinates@)),
{
    proof {
        lemma_squared_monotone(a.coordinates@, b.coordinates@, 0, shared_dims(a.coordinates@, b.coordinates@));
        lemma_floor_sqrt(squared_euclidean_spec(a.coordinates@, b.coordinates@) as nat);
    }
    DistanceFunction::Euclidean.distance(a, b)
}

/// The squared Euclidean distance of two nodes: the sum of the
/// per-dimension squared differences.
pub fn squared_euclidean_distance(a: &Node, b: &Node) -> (r: u64)
    requires
        squared_euclidean_spec(a.coordinates@, b.coordinates@) <= u64::MAX,
    ensures
        r == squared_euclidean_spec(a.coordinates@, b.coordinates@),
{
    DistanceFunction::SquaredEuclidean.distance(a, b)
}

} // verus!
