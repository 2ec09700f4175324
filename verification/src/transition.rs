//! Construction of the discretized transition operator.
//!
//! The state domain is the unit interval `[0, 1)`, the invariant domain of
//! the logistic map, split into `buckets` equal half-open sub-intervals.
//! For a source bucket `j`, `subbuckets` equally spaced sample points are
//! taken from its interval (left edge included, right edge excluded), each
//! is pushed through `x' = r*x*(1-x)`, and the destination bucket of the
//! image is recorded.  A sample whose image falls outside `[0, 1)` is
//! discarded (the documented loss-of-mass policy), never misattributed.
//!
//! The parameter `r` is a rational `r_num / r_den`, so every sample image is
//! itself a rational and the destination bucket is an exact integer floor:
//! sample `s` of bucket `j` is the point `t / (buckets*subbuckets)` with
//! `t = j*subbuckets + s`, its image is
//! `r_num*t*(buckets*subbuckets - t) / (r_den*(buckets*subbuckets)^2)`,
//! and the destination is the floor of that image scaled by `buckets`.
//!
//! The matrix is stored as sample counts: entry `[destination][source]` is
//! the number of the `subbuckets` samples of `source` that land in
//! `destination`; dividing by `subbuckets` gives the transition fraction.

use vstd::prelude::*;

verus! {

/// Granularity of the discretization and the rational map parameter.
pub struct Params {
    /// Number of buckets partitioning `[0, 1)`.
    pub buckets: usize,
    /// Number of sample points per source bucket.
    pub subbuckets: usize,
    /// Numerator of the map parameter `r`.
    pub r_num: i64,
    /// Denominator of the map parameter `r`; positive.
    pub r_den: i64,
}

impl Params {
    /// Bounds under which every intermediate product below fits in 128 bits.
    pub open spec fn valid(self) -> bool {
        &&& 1 <= self.buckets <= 4096
        &&& 1 <= self.subbuckets <= 65536
        &&& -0x4_0000_0000_0000 <= self.r_num <= 0x4_0000_0000_0000
        &&& 1 <= self.r_den <= 0x4_0000_0000_0000
    }
}

/// Destination bucket of sample `s` of source bucket `j`, or `None` when the
/// image of the sample falls outside `[0, 1)` and the sample is discarded.
pub open spec fn dest_bucket_spec(p: Params, j: int, s: int) -> Option<int> {
    let bs = p.buckets * p.subbuckets;
    let t = j * p.subbuckets + s;
    let num = p.r_num * t * (bs - t);
    let den = p.r_den * bs * p.subbuckets;
    if num < 0 {
        None
    } else if num / den >= p.buckets {
        None
    } else {
        Some(num / den)
    }
}

/// Computes the destination bucket of one sample, exactly.
pub fn dest_bucket(p: &Params, j: usize, s: usize) -> (r: Option<usize>)
    requires
        p.valid(),
        j < p.buckets,
        s < p.subbuckets,
    ensures
        match r {
            Some(d) => dest_bucket_spec(*p, j as int, s as int) == Some(d as int),
            None => dest_bucket_spec(*p, j as int, s as int) is None,
        },
{
    proof {
        assert(p.buckets * p.subbuckets <= 0x1000_0000) by (nonlinear_arith)
            requires
                p.buckets <= 4096,
                p.subbuckets <= 65536,
                1 <= p.buckets,
                1 <= p.subbuckets,
        ;
        assert(j * p.subbuckets + s < p.buckets * p.subbuckets) by (nonlinear_arith)
            requires
                j < p.buckets,
                s < p.subbuckets,
                1 <= p.subbuckets,
        ;
    }
    let bs: u64 = (p.buckets as u64) * (p.subbuckets as u64);
    let t: u64 = (j as u64) * (p.subbuckets as u64) + (s as u64);
    assert(t < bs) by (nonlinear_arith)
        requires
            t == j * p.subbuckets + s,
            bs == p.buckets * p.subbuckets,
            j < p.buckets,
            s < p.subbuckets,
            0 < p.subbuckets,
    ;
    proof {
        assert(t * (bs - t) <= 0x1000_0000 * 0x1000_0000) by (nonlinear_arith)
            requires
                0 <= t < bs,
                bs <= 0x1000_0000,
        ;
        assert(p.r_den * bs <= 0x4_0000_0000_0000 * 0x1000_0000
            && p.r_den * bs * p.subbuckets <= 0x4_0000_0000_0000 * 0x1000_0000 * 65536)
            by (nonlinear_arith)
            requires
                1 <= p.r_den <= 0x4_0000_0000_0000,
                1 <= bs <= 0x1000_0000,
                1 <= p.subbuckets <= 65536,
        ;
    }
    let u: u128 = (t as u128) * ((bs - t) as u128);
    let den: u128 = (p.r_den as u128) * (bs as u128) * (p.subbuckets as u128);
    assert(den == p.r_den * (p.buckets * p.subbuckets) * p.subbuckets > 0) by (nonlinear_arith)
        requires
            den == p.r_den as int * bs as int * p.subbuckets,
            bs == p.buckets * p.subbuckets,
            p.r_den >= 1,
            p.buckets >= 1,
            p.subbuckets >= 1,
    ;
    if p.r_num < 0 && u > 0 {
        assert(p.r_num * (t as int) * ((bs - t) as int) < 0) by (nonlinear_arith)
            requires
                p.r_num < 0,
                t as int * ((bs - t) as int) > 0,
        ;
        return None;
    }
    let rn: u128 = if p.r_num <= 0 { 0 } else { p.r_num as u128 };
    proof {
        assert(rn * u <= 0x4_0000_0000_0000 * (0x1000_0000 * 0x1000_0000)) by (nonlinear_arith)
            requires
                0 <= rn <= 0x4_0000_0000_0000,
                0 <= u <= 0x1000_0000 * 0x1000_0000,
        ;
    }
    let num: u128 = rn * u;
    assert(num == p.r_num * (t as int) * ((bs - t) as int)) by (nonlinear_arith)
        requires
            num == rn as int * (t as int * ((bs - t) as int)),
            u == t as int * ((bs - t) as int),
            rn == if p.r_num <= 0 { 0int } else { p.r_num as int },
            !(p.r_num < 0 && u > 0),
            0 <= u,
    ;
    let q: u128 = num / den;
    if q >= p.buckets as u128 {
        None
    } else {
        Some(q as usize)
    }
}

/// Number among the first `s` samples of source bucket `j` that land in
/// destination bucket `i`.
pub open spec fn count_dest(p: Params, j: int, i: int, s: nat) -> int
    decreases s,
{
    if s == 0 {
        0
    } else {
        count_dest(p, j, i, (s - 1) as nat) + if dest_bucket_spec(p, j, s - 1) == Some(i) {
            1int
        } else {
            0int
        }
    }
}

/// Number among the first `s` samples of source bucket `j` whose image falls
/// outside `[0, 1)` and is discarded.
pub open spec fn count_escaped(p: Params, j: int, s: nat) -> int
    decreases s,
{
    if s == 0 {
        0
    } else {
        count_escaped(p, j, (s - 1) as nat) + if dest_bucket_spec(p, j, s - 1) is None {
            1int
        } else {
            0int
        }
    }
}

/// Sum of `count_dest(p, j, i, s)` over destinations `i < upto`: the mass of
/// column `j` attributed to the first `upto` destination buckets.
pub open spec fn count_sum(p: Params, j: int, upto: nat, s: nat) -> int
    decreases upto,
{
    if upto == 0 {
        0
    } else {
        count_sum(p, j, (upto - 1) as nat, s) + count_dest(p, j, upto - 1, s)
    }
}

/// The transition matrix determined by `p`: entry `[i][j]` counts the samples
/// of source bucket `j` that land in destination bucket `i`.
pub open spec fn matrix_spec(p: Params) -> Seq<Seq<u32>> {
    Seq::new(
        p.buckets as nat,
        |i: int|
            Seq::new(
                p.buckets as nat,
                |j: int| count_dest(p, j, i, p.subbuckets as nat) as u32,
            ),
    )
}

/// A destination delivered by `dest_bucket_spec` is a genuine bucket index.
pub proof fn lemma_dest_in_range(p: Params, j: int, s: int)
    requires
        p.valid(),
        dest_bucket_spec(p, j, s) is Some,
    ensures
        0 <= dest_bucket_spec(p, j, s)->0 < p.buckets,
{
    let bs = p.buckets * p.subbuckets;
    let t = j * p.subbuckets + s;
    let num = p.r_num * t * (bs - t);
    let den = p.r_den * bs * p.subbuckets;
    assert(den > 0) by (nonlinear_arith)
        requires
            den == p.r_den * (p.buckets * p.subbuckets) * p.subbuckets,
            p.r_den >= 1,
            p.buckets >= 1,
            p.subbuckets >= 1,
    ;
    assert(num >= 0 && den > 0 ==> num / den >= 0) by (nonlinear_arith);
}

/// Counts are monotone and bounded by the number of samples taken.
pub proof fn lemma_count_dest_bounds(p: Params, j: int, i: int, s: nat)
    ensures
        0 <= count_dest(p, j, i, s) <= s,
    decreases s,
{
    if s > 0 {
        lemma_count_dest_bounds(p, j, i, (s - 1) as nat);
    }
}

/// With no samples taken, every partial column sum is zero.
proof fn lemma_count_sum_zero(p: Params, j: int, upto: nat)
    ensures
        count_sum(p, j, upto, 0) == 0,
    decreases upto,
{
    if upto > 0 {
        lemma_count_sum_zero(p, j, (upto - 1) as nat);
    }
}

/// Taking one more sample raises the partial column sum by one exactly when
/// the sample lands in a destination below `upto`.
proof fn lemma_count_sum_step(p: Params, j: int, upto: nat, s: nat)
    ensures
        count_sum(p, j, upto, (s + 1) as nat) == count_sum(p, j, upto, s) + (
        match dest_bucket_spec(p, j, s as int) {
            Some(d) => if 0 <= d < upto {
                1int
            } else {
                0int
            },
            None => 0int,
        }),
    decreases upto,
{
    if upto > 0 {
        lemma_count_sum_step(p, j, (upto - 1) as nat, s);
    }
}

/// Every sample of a column is either attributed to exactly one destination
/// bucket or discarded: attributed mass plus discarded mass is the sample
/// count.  In particular each column of the matrix sums to at most
/// `subbuckets`, and to exactly `subbuckets` when no sample escapes.
pub proof fn lemma_column_partition(p: Params, j: int, s: nat)
    requires
        p.valid(),
    ensures
        count_sum(p, j, p.buckets as nat, s) + count_escaped(p, j, s) == s,
    decreases s,
{
    if s == 0 {
        lemma_count_sum_zero(p, j, p.buckets as nat);
    }
    if s > 0 {
        let s1 = (s - 1) as nat;
        lemma_column_partition(p, j, s1);
        lemma_count_sum_step(p, j, p.buckets as nat, s1);
        assert((s1 + 1) as nat == s);
        if dest_bucket_spec(p, j, s1 as int) is Some {
            lemma_dest_in_range(p, j, s1 as int);
        }
        assert(count_escaped(p, j, s) == count_escaped(p, j, s1) + if dest_bucket_spec(
            p,
            j,
            s1 as int,
        ) is None {
            1int
        } else {
            0int
        });
    }
}

/// Discard counts are non-negative, so attributed column mass never exceeds
/// the sample count.
pub proof fn lemma_column_sum_at_most(p: Params, j: int, s: nat)
    requires
        p.valid(),
    ensures
        count_sum(p, j, p.buckets as nat, s) <= s,
        count_escaped(p, j, s) == 0 ==> count_sum(p, j, p.buckets as nat, s) == s,
    decreases s,
{
    lemma_column_partition(p, j, s);
    lemma_count_escaped_nonneg(p, j, s);
}

proof fn lemma_count_escaped_nonneg(p: Params, j: int, s: nat)
    ensures
        0 <= count_escaped(p, j, s) <= s,
    decreases s,
{
    if s > 0 {
        lemma_count_escaped_nonneg(p, j, (s - 1) as nat);
    }
}

/// The transition matrix is a function of the parameters alone: any two
/// matrices meeting `build`'s contract for the same parameters are
/// bit-identical.
pub proof fn lemma_build_deterministic(p: Params, a: Seq<Seq<u32>>, b: Seq<Seq<u32>>)
    requires
        a.len() == p.buckets,
        b.len() == p.buckets,
        forall|i: int| 0 <= i < p.buckets ==> (#[trigger] a[i]).len() == p.buckets,
        forall|i: int| 0 <= i < p.buckets ==> (#[trigger] b[i]).len() == p.buckets,
        forall|i: int, j: int|
            0 <= i < p.buckets && 0 <= j < p.buckets ==> #[trigger] a[i][j] == count_dest(
                p,
                j,
                i,
                p.subbuckets as nat,
            ),
        forall|i: int, j: int|
            0 <= i < p.buckets && 0 <= j < p.buckets ==> #[trigger] b[i][j] == count_dest(
                p,
                j,
                i,
                p.subbuckets as nat,
            ),
    ensures
        a == b,
{
    assert forall|i: int| 0 <= i < p.buckets implies a[i] == b[i] by {
        assert(a[i] =~= b[i]);
    }
    assert(a =~= b);
}

/// Builds the transition matrix for the given parameters: a pure, total
/// function whose every entry is pinned by `count_dest`.
pub fn build(p: &Params) -> (m: Vec<Vec<u32>>)
    requires
        p.valid(),
    ensures
        m@.len() == p.buckets,
        forall|i: int| 0 <= i < p.buckets ==> (#[trigger] m@[i])@.len() == p.buckets,
        forall|i: int, j: int|
            0 <= i < p.buckets && 0 <= j < p.buckets ==> #[trigger] m@[i]@[j] == count_dest(
                *p,
                j,
                i,
                p.subbuckets as nat,
            ),
{
    let b = p.buckets;
    let sb = p.subbuckets;
    let mut m: Vec<Vec<u32>> = Vec::new();
    while m.len() < b
        invariant
            m@.len() <= b,
            forall|i: int| 0 <= i < m@.len() ==> (#[trigger] m@[i])@.len() == b,
            forall|i: int, j: int| 0 <= i < m@.len() && 0 <= j < b ==> #[trigger] m@[i]@[j] == 0,
        decreases b - m@.len(),
    {
        m.push(zero_row(b));
    }
    let mut j: usize = 0;
    while j < b
        invariant
            p.valid(),
            b == p.buckets,
            sb == p.subbuckets,
            m@.len() == b,
            forall|i: int| 0 <= i < b ==> (#[trigger] m@[i])@.len() == b,
            forall|i: int, j2: int|
                0 <= i < b && 0 <= j2 < j ==> #[trigger] m@[i]@[j2] == count_dest(
                    *p,
                    j2,
                    i,
                    p.subbuckets as nat,
                ),
            forall|i: int, j2: int|
                0 <= i < b && j <= j2 < b ==> #[trigger] m@[i]@[j2] == 0,
            j <= b,
        decreases b - j,
    {
        let mut s: usize = 0;
        while s < sb
            invariant
                p.valid(),
                b == p.buckets,
                sb == p.subbuckets,
                j < b,
                s <= sb,
                m@.len() == b,
                forall|i: int| 0 <= i < b ==> (#[trigger] m@[i])@.len() == b,
                forall|i: int, j2: int|
                    0 <= i < b && 0 <= j2 < j ==> #[trigger] m@[i]@[j2] == count_dest(
                        *p,
                        j2,
                        i,
                        p.subbuckets as nat,
                    ),
                forall|i: int| 0 <= i < b ==> #[trigger] m@[i]@[j as int] == count_dest(
                    *p,
                    j as int,
                    i,
                    s as nat,
                ),
                forall|i: int, j2: int|
                    0 <= i < b && j < j2 < b ==> #[trigger] m@[i]@[j2] == 0,
            decreases sb - s,
        {
            match dest_bucket(p, j, s) {
                Some(d) => {
                    proof {
                        lemma_dest_in_range(*p, j as int, s as int);
                        lemma_count_dest_bounds(*p, j as int, d as int, s as nat);
                    }
                    let c = m[d][j];
                    m[d][j] = c + 1;
                },
                None => {
                },
            }
            s = s + 1;
        }
        j = j + 1;
    }
    m
}

/// A row of zero counts.
fn zero_row(n: usize) -> (v: Vec<u32>)
    ensures
        v@.len() == n,
        forall|i: int| 0 <= i < n ==> #[trigger] v@[i] == 0,
{
    let mut v: Vec<u32> = Vec::new();
    while v.len() < n
        invariant
            v@.len() <= n,
            forall|i: int| 0 <= i < v@.len() ==> #[trigger] v@[i] == 0,
        decreases n - v@.len(),
    {
        v.push(0);
    }
    v
}

} // verus!
