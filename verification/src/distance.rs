//! Distance metrics over fixed-precision vectors. All arithmetic is
//! exact 128-bit integer arithmetic: Euclidean distance is the squared
//! Euclidean norm of the difference (order-equivalent to the true
//! distance), dot distance is the negated inner product, and cosine
//! distance is a scaled integer form built on an exact integer square
//! root.

use vstd::prelude::*;

verus! {

use crate::schema::MAX_DIM;

/// The metric a query ranks by.
#[derive(Clone, Copy, PartialEq, Eq, Structural, Debug)]
pub enum Metric {
    Euclidean,
    Cosine,
    Dot,
}

/// Fixed scale of the integer cosine distance.
pub const COSINE_SCALE: i64 = 1000000;

/// A vector of 32-bit elements as a sequence of integers.
pub open spec fn ints(v: Seq<i32>) -> Seq<int> {
    v.map_values(|x: i32| x as int)
}

/// Squared Euclidean distance.
pub open spec fn sq_dist(a: Seq<int>, b: Seq<int>) -> int
    decreases a.len(),
{
    if a.len() == 0 || b.len() == 0 {
        0
    } else {
        (a[0] - b[0]) * (a[0] - b[0]) + sq_dist(a.drop_first(), b.drop_first())
    }
}

/// Inner product.
pub open spec fn dot(a: Seq<int>, b: Seq<int>) -> int
    decreases a.len(),
{
    if a.len() == 0 || b.len() == 0 {
        0
    } else {
        a[0] * b[0] + dot(a.drop_first(), b.drop_first())
    }
}

/// `r` is the integer square root of `n`.
pub open spec fn is_isqrt(n: int, r: int) -> bool {
    r >= 0 && r * r <= n < (r + 1) * (r + 1)
}

/// The integer square root of a nonnegative number.
pub open spec fn isqrt_spec(n: int) -> int {
    choose|r: int| is_isqrt(n, r)
}

pub proof fn lemma_isqrt_unique(n: int, r1: int, r2: int)
    requires
        is_isqrt(n, r1),
        is_isqrt(n, r2),
    ensures
        r1 == r2,
{
    assert(r1 == r2) by (nonlinear_arith)
        requires
            r1 >= 0 && r1 * r1 <= n < (r1 + 1) * (r1 + 1),
            r2 >= 0 && r2 * r2 <= n < (r2 + 1) * (r2 + 1),
    ;
}

/// Scaled integer cosine distance. Zero for parallel directions,
/// `COSINE_SCALE` for orthogonal ones and for vectors without a
/// direction (all zeros), about twice the scale for opposite ones.
pub open spec fn cosine_dist(a: Seq<int>, b: Seq<int>) -> int {
    let denom = isqrt_spec(dot(a, a)) * isqrt_spec(dot(b, b));
    let d = dot(a, b);
    if denom <= 0 {
        COSINE_SCALE as int
    } else if d >= 0 {
        COSINE_SCALE - (d * COSINE_SCALE) / denom
    } else {
        COSINE_SCALE + ((-d) * COSINE_SCALE) / denom
    }
}

/// The distance a query with this metric ranks by; smaller is nearer.
pub open spec fn spec_distance(m: Metric, a: Seq<int>, b: Seq<int>) -> int {
    match m {
        Metric::Euclidean => sq_dist(a, b),
        Metric::Cosine => cosine_dist(a, b),
        Metric::Dot => -dot(a, b),
    }
}

/// Elements of a 32-bit vector are bounded by `2^31`.
pub proof fn lemma_ints_bounded(v: Seq<i32>)
    ensures
        forall|k: int| 0 <= k < ints(v).len() ==> -0x80000000 <= #[trigger] ints(v)[k] <= 0x80000000,
{
}

pub proof fn lemma_sq_dist_bound(a: Seq<int>, b: Seq<int>)
    requires
        forall|k: int| 0 <= k < a.len() ==> -0x80000000 <= #[trigger] a[k] <= 0x80000000,
        forall|k: int| 0 <= k < b.len() ==> -0x80000000 <= #[trigger] b[k] <= 0x80000000,
    ensures
        0 <= sq_dist(a, b) <= a.len() * 0x10000000000000000,
    decreases a.len(),
{
    if a.len() == 0 || b.len() == 0 {
    } else {
        let x = a[0];
        let y = b[0];
        assert(0 <= (x - y) * (x - y) <= 0x10000000000000000) by (nonlinear_arith)
            requires
                -0x80000000 <= x <= 0x80000000,
                -0x80000000 <= y <= 0x80000000,
        ;
        lemma_sq_dist_bound(a.drop_first(), b.drop_first());
    }
}

pub proof fn lemma_dot_bound(a: Seq<int>, b: Seq<int>)
    requires
        forall|k: int| 0 <= k < a.len() ==> -0x80000000 <= #[trigger] a[k] <= 0x80000000,
        forall|k: int| 0 <= k < b.len() ==> -0x80000000 <= #[trigger] b[k] <= 0x80000000,
    ensures
        -(a.len() * 0x4000000000000000) <= dot(a, b) <= a.len() * 0x4000000000000000,
    decreases a.len(),
{
    if a.len() == 0 || b.len() == 0 {
    } else {
        let x = a[0];
        let y = b[0];
        assert(-0x4000000000000000 <= x * y <= 0x4000000000000000) by (nonlinear_arith)
            requires
                -0x80000000 <= x <= 0x80000000,
                -0x80000000 <= y <= 0x80000000,
        ;
        lemma_dot_bound(a.drop_first(), b.drop_first());
    }
}

/// Exact squared Euclidean distance of two equally long vectors.
#[verifier::loop_isolation(false)]
pub fn sq_dist_exec(a: &Vec<i32>, b: &Vec<i32>) -> (r: i128)
    requires
        a@.len() == b@.len(),
        a@.len() <= MAX_DIM,
    ensures
        r == sq_dist(ints(a@), ints(b@)),
        0 <= r <= a@.len() * 0x10000000000000000,
{
    proof {
        lemma_ints_bounded(a@);
        lemma_ints_bounded(b@);
        lemma_sq_dist_bound(ints(a@), ints(b@));
    }
    let n = a.len();
    let mut acc: i128 = 0;
    let mut i: usize = 0;
    proof {
        assert(ints(a@).skip(0) =~= ints(a@));
        assert(ints(b@).skip(0) =~= ints(b@));
    }
    while i < n
        invariant
            i <= n,
            0 <= acc <= i * 0x10000000000000000,
            sq_dist(ints(a@), ints(b@)) == acc + sq_dist(
                ints(a@).skip(i as int),
                ints(b@).skip(i as int),
            ),
        decreases n - i,
    {
        let d: i64 = a[i] as i64 - b[i] as i64;
        proof {
            assert(0 <= (d as int) * (d as int) <= 0x10000000000000000) by (nonlinear_arith)
                requires
                    -0x100000000 <= d as int <= 0x100000000,
            ;
        }
        let sq: i128 = (d as i128) * (d as i128);
        proof {
            assert(ints(a@).skip(i as int)[0] == a@[i as int] as int);
            assert(ints(b@).skip(i as int)[0] == b@[i as int] as int);
            assert(ints(a@).skip(i as int).drop_first() =~= ints(a@).skip(i as int + 1));
            assert(ints(b@).skip(i as int).drop_first() =~= ints(b@).skip(i as int + 1));
        }
        acc = acc + sq;
        i += 1;
    }
    proof {
        assert(ints(a@).skip(n as int).len() == 0);
    }
    acc
}

/// Exact inner product of two equally long vectors.
#[verifier::loop_isolation(false)]
pub fn dot_exec(a: &Vec<i32>, b: &Vec<i32>) -> (r: i128)
    requires
        a@.len() == b@.len(),
        a@.len() <= MAX_DIM,
    ensures
        r == dot(ints(a@), ints(b@)),
        -(a@.len() * 0x4000000000000000) <= r <= a@.len() * 0x4000000000000000,
{
    proof {
        lemma_ints_bounded(a@);
        lemma_ints_bounded(b@);
        lemma_dot_bound(ints(a@), ints(b@));
    }
    let n = a.len();
    let mut acc: i128 = 0;
    let mut i: usize = 0;
    proof {
        assert(ints(a@).skip(0) =~= ints(a@));
        assert(ints(b@).skip(0) =~= ints(b@));
    }
    while i < n
        invariant
            i <= n,
            -(i * 0x4000000000000000) <= acc <= i * 0x4000000000000000,
            dot(ints(a@), ints(b@)) == acc + dot(ints(a@).skip(i as int), ints(b@).skip(i as int)),
        decreases n - i,
    {
        let x = a[i];
        let y = b[i];
        proof {
            assert(-0x4000000000000000 <= (x as int) * (y as int) <= 0x4000000000000000)
                by (nonlinear_arith)
                requires
                    -0x80000000 <= x as int <= 0x80000000,
                    -0x80000000 <= y as int <= 0x80000000,
            ;
            assert(ints(a@).skip(i as int)[0] == a@[i as int] as int);
            assert(ints(b@).skip(i as int)[0] == b@[i as int] as int);
            assert(ints(a@).skip(i as int).drop_first() =~= ints(a@).skip(i as int + 1));
            assert(ints(b@).skip(i as int).drop_first() =~= ints(b@).skip(i as int + 1));
        }
        let p: i128 = (x as i128) * (y as i128);
        acc = acc + p;
        i += 1;
    }
    proof {
        assert(ints(a@).skip(n as int).len() == 0);
    }
    acc
}

/// Exact integer square root by bisection.
pub fn isqrt(n: i128) -> (r: i128)
    requires
        0 <= n <= 0x100000000000000000000,
    ensures
        is_isqrt(n as int, r as int),
        r == isqrt_spec(n as int),
        0 <= r <= 0x20000000000,
{
    let mut lo: i128 = 0;
    let mut hi: i128 = 0x20000000000;
    proof {
        assert((0x20000000000i128 as int) * (0x20000000000i128 as int) > n as int);
    }
    while lo + 1 < hi
        invariant
            0 <= lo < hi <= 0x20000000000,
            (lo as int) * (lo as int) <= n as int,
            (n as int) < (hi as int) * (hi as int),
        decreases hi - lo,
    {
        let mid = lo + (hi - lo) / 2;
        if mid <= (n / mid) {
            proof {
                assert((mid as int) * (mid as int) <= n as int) by (nonlinear_arith)
                    requires
                        0 < mid as int,
                        mid as int <= (n as int) / (mid as int),
                        0 <= n as int,
                ;
            }
            lo = mid;
        } else {
            proof {
                assert((n as int) < (mid as int) * (mid as int)) by (nonlinear_arith)
                    requires
                        0 < mid as int,
                        mid as int > (n as int) / (mid as int),
                        0 <= n as int,
                ;
            }
            hi = mid;
        }
    }
    proof {
        assert(is_isqrt(n as int, lo as int));
        assert(exists|r: int| is_isqrt(n as int, r));
        lemma_isqrt_unique(n as int, lo as int, isqrt_spec(n as int));
    }
    lo
}

/// The distance of two equally long vectors under a metric, exactly as
/// [`spec_distance`] defines it.
pub fn distance(m: Metric, a: &Vec<i32>, b: &Vec<i32>) -> (r: i128)
    requires
        a@.len() == b@.len(),
        a@.len() <= MAX_DIM,
    ensures
        r == spec_distance(m, ints(a@), ints(b@)),
{
    match m {
        Metric::Euclidean => sq_dist_exec(a, b),
        Metric::Dot => {
            let d = dot_exec(a, b);
            -d
        },
        Metric::Cosine => {
            let na = dot_exec(a, a);
            let nb = dot_exec(b, b);
            proof {
                lemma_ints_bounded(a@);
                lemma_ints_bounded(b@);
                lemma_self_dot_nonneg(ints(a@));
                lemma_self_dot_nonneg(ints(b@));
            }
            let sa = isqrt(na);
            let sb = isqrt(nb);
            proof {
                assert((sa as int) * (sb as int) <= 0x400000000000000000000) by (nonlinear_arith)
                    requires
                        0 <= sa as int <= 0x20000000000,
                        0 <= sb as int <= 0x20000000000,
                ;
                assert((sa as int) * (sb as int) >= 0) by (nonlinear_arith)
                    requires
                        0 <= sa as int,
                        0 <= sb as int,
                ;
            }
            let denom = sa * sb;
            let d = dot_exec(a, b);
            proof {
                assert(-0x40000000000000000000 <= d as int <= 0x40000000000000000000);
            }
            if denom <= 0 {
                COSINE_SCALE as i128
            } else if d >= 0 {
                let num = d * (COSINE_SCALE as i128);
                (COSINE_SCALE as i128) - num / denom
            } else {
                let num = (-d) * (COSINE_SCALE as i128);
                proof {
                    lemma_div_bound(num as int, denom as int);
                }
                (COSINE_SCALE as i128) + num / denom
            }
        },
    }
}

/// The inner product of a vector with itself is nonnegative.
pub proof fn lemma_self_dot_nonneg(a: Seq<int>)
    ensures
        dot(a, a) >= 0,
    decreases a.len(),
{
    if a.len() == 0 {
    } else {
        assert(a[0] * a[0] >= 0) by (nonlinear_arith);
        lemma_self_dot_nonneg(a.drop_first());
    }
}

/// A nonnegative quotient is bounded by its dividend.
proof fn lemma_div_bound(num: int, denom: int)
    requires
        num >= 0,
        denom >= 1,
    ensures
        0 <= num / denom <= num,
{
    assert(0 <= num / denom <= num) by (nonlinear_arith)
        requires
            num >= 0,
            denom >= 1,
    ;
}

} // verus!
