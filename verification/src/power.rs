//! Power iteration toward a stationary distribution, in exact fixed point.
//!
//! A distribution is a vector of `u64` masses measured against the fixed
//! denominator [`FIXED_ONE`]; the uniform start assigns `FIXED_ONE / n` to
//! each of `n` buckets.  One step replaces the vector `v` by `w` with
//! `w[i] = min(row_i . v / subbuckets, FIXED_ONE)` (floor division): the
//! matrix holds sample counts out of `subbuckets`, so this is the exact
//! floor of the real matrix-vector product.  The `min` is a saturating
//! guard that keeps entries within the fixed-point range for arbitrary
//! count matrices; for a matrix whose columns sum to at most `subbuckets`
//! applied to a vector of total mass at most [`FIXED_ONE`] it never binds.
//!
//! Iteration stops early when the L1 distance between successive vectors
//! falls below the tolerance, and otherwise after `max_iterations` steps,
//! exactly as [`iterate_spec`] prescribes.

use vstd::prelude::*;

verus! {

/// Fixed-point denominator: the mass value standing for probability one.
pub const FIXED_ONE: u64 = 0x1_0000_0000;

/// Exact dot product of a row of counts with a mass vector.
pub open spec fn row_dot(row: Seq<u32>, v: Seq<u64>) -> int
    decreases row.len(),
{
    if row.len() == 0 || v.len() == 0 {
        0
    } else {
        row_dot(row.drop_last(), v.drop_last()) + row.last() * v.last()
    }
}

/// One power-iteration step: floor-divided by `sb`, saturated at `FIXED_ONE`.
pub open spec fn step_spec(m: Seq<Seq<u32>>, v: Seq<u64>, sb: int) -> Seq<u64> {
    Seq::new(
        m.len(),
        |i: int|
            if row_dot(m[i], v) / sb >= FIXED_ONE {
                FIXED_ONE
            } else {
                (row_dot(m[i], v) / sb) as u64
            },
    )
}

/// L1 distance between two mass vectors.
pub open spec fn l1_dist(a: Seq<u64>, b: Seq<u64>) -> int
    decreases a.len(),
{
    if a.len() == 0 || b.len() == 0 {
        0
    } else {
        l1_dist(a.drop_last(), b.drop_last()) + if a.last() >= b.last() {
            a.last() - b.last()
        } else {
            b.last() - a.last()
        }
    }
}

/// The L1 distance between any two iterates is non-negative.
pub proof fn lemma_l1_nonneg(a: Seq<u64>, b: Seq<u64>)
    ensures
        l1_dist(a, b) >= 0,
    decreases a.len(),
{
    if a.len() > 0 && b.len() > 0 {
        lemma_l1_nonneg(a.drop_last(), b.drop_last());
    }
}

/// The uniform starting distribution over `n` buckets.
pub open spec fn uniform_spec(n: nat) -> Seq<u64> {
    Seq::new(n, |i: int| (FIXED_ONE as int / n as int) as u64)
}

/// The result of power iteration: step, stop early once the L1 distance to
/// the previous vector falls below `tol`, stop in any case when the fuel is
/// spent.  The returned vector is the one produced by the last step taken.
pub open spec fn iterate_spec(m: Seq<Seq<u32>>, v: Seq<u64>, sb: int, tol: u64, fuel: nat) -> Seq<
    u64,
>
    decreases fuel,
{
    if fuel == 0 {
        v
    } else {
        let w = step_spec(m, v, sb);
        if l1_dist(w, v) < tol {
            w
        } else {
            iterate_spec(m, w, sb, tol, (fuel - 1) as nat)
        }
    }
}

/// A count matrix that maps every bucket to itself with full mass: entry
/// `[i][j]` is `sb` on the diagonal and `0` elsewhere.
pub open spec fn is_identity_counts(m: Seq<Seq<u32>>, n: int, sb: int) -> bool {
    &&& m.len() == n
    &&& forall|i: int| 0 <= i < n ==> (#[trigger] m[i]).len() == n
    &&& forall|i: int, j: int|
        0 <= i < n && 0 <= j < n ==> #[trigger] m[i][j] == if i == j {
            sb
        } else {
            0
        }
}

proof fn lemma_row_dot_zero(row: Seq<u32>, v: Seq<u64>)
    requires
        row.len() == v.len(),
        forall|j: int| 0 <= j < row.len() ==> #[trigger] row[j] == 0,
    ensures
        row_dot(row, v) == 0,
    decreases row.len(),
{
    if row.len() > 0 {
        lemma_row_dot_zero(row.drop_last(), v.drop_last());
    }
}

proof fn lemma_row_dot_unit(row: Seq<u32>, v: Seq<u64>, i: int, sb: int)
    requires
        row.len() == v.len(),
        0 <= i < row.len(),
        forall|j: int|
            0 <= j < row.len() ==> #[trigger] row[j] == if j == i {
                sb
            } else {
                0
            },
    ensures
        row_dot(row, v) == sb * v[i],
    decreases row.len(),
{
    let l = row.len() - 1;
    if i == l {
        lemma_row_dot_zero(row.drop_last(), v.drop_last());
    } else {
        lemma_row_dot_unit(row.drop_last(), v.drop_last(), i, sb);
    }
}

proof fn lemma_l1_self(v: Seq<u64>)
    ensures
        l1_dist(v, v) == 0,
    decreases v.len(),
{
    if v.len() > 0 {
        lemma_l1_self(v.drop_last());
    }
}

/// The identity count matrix leaves any in-range mass vector unchanged in a
/// single step.
pub proof fn lemma_identity_step(m: Seq<Seq<u32>>, v: Seq<u64>, sb: int)
    requires
        is_identity_counts(m, v.len() as int, sb),
        1 <= sb,
        forall|i: int| 0 <= i < v.len() ==> #[trigger] v[i] <= FIXED_ONE,
    ensures
        step_spec(m, v, sb) == v,
{
    assert forall|i: int| 0 <= i < v.len() implies step_spec(m, v, sb)[i] == v[i] by {
        lemma_row_dot_unit(m[i], v, i, sb);
        assert(row_dot(m[i], v) == sb * v[i]);
        assert(sb * v[i] / sb == v[i]) by (nonlinear_arith)
            requires
                1 <= sb,
                0 <= v[i],
        ;
    }
    assert(step_spec(m, v, sb) =~= v);
}

/// Power iteration on the identity operator converges at once: the first
/// step reproduces its input exactly, the L1 difference of successive
/// iterates is zero from step one, and the result, for any positive
/// tolerance and any positive iteration budget, is the starting vector -- a
/// genuine fixed point.
pub proof fn lemma_identity_fixed_point(m: Seq<Seq<u32>>, v: Seq<u64>, sb: int, tol: u64, fuel: nat)
    requires
        is_identity_counts(m, v.len() as int, sb),
        1 <= sb,
        1 <= tol,
        1 <= fuel,
        forall|i: int| 0 <= i < v.len() ==> #[trigger] v[i] <= FIXED_ONE,
    ensures
        l1_dist(step_spec(m, v, sb), v) == 0,
        iterate_spec(m, v, sb, tol, fuel) == v,
{
    lemma_identity_step(m, v, sb);
    lemma_l1_self(v);
}

/// The uniform start applied to the identity operator is returned unchanged.
pub proof fn lemma_identity_uniform(m: Seq<Seq<u32>>, n: nat, sb: int, tol: u64, fuel: nat)
    requires
        is_identity_counts(m, n as int, sb),
        1 <= n,
        1 <= sb,
        1 <= tol,
        1 <= fuel,
    ensures
        iterate_spec(m, uniform_spec(n), sb, tol, fuel) == uniform_spec(n),
{
    assert forall|i: int| 0 <= i < n implies #[trigger] uniform_spec(n)[i] <= FIXED_ONE by {
        assert(FIXED_ONE as int / n as int <= FIXED_ONE) by (nonlinear_arith)
            requires
                1 <= n,
        ;
    }
    lemma_identity_fixed_point(m, uniform_spec(n), sb, tol, fuel);
}

/// Shape predicate for a square count matrix of side `n`.
pub open spec fn is_square(m: Seq<Seq<u32>>, n: int) -> bool {
    &&& m.len() == n
    &&& forall|i: int| 0 <= i < n ==> (#[trigger] m[i]).len() == n
}

/// One exact step of the iteration.
pub fn step(m: &Vec<Vec<u32>>, v: &Vec<u64>, sb: u32) -> (w: Vec<u64>)
    requires
        is_square(m@.map_values(|r: Vec<u32>| r@), v@.len() as int),
        v@.len() <= 4096,
        sb >= 1,
    ensures
        w@ == step_spec(m@.map_values(|r: Vec<u32>| r@), v@, sb as int),
{
    let n = v.len();
    let ghost ms = m@.map_values(|r: Vec<u32>| r@);
    let mut w: Vec<u64> = Vec::new();
    let mut i: usize = 0;
    while i < n
        invariant
            is_square(ms, n as int),
            ms == m@.map_values(|r: Vec<u32>| r@),
            v@.len() == n,
            n <= 4096,
            sb >= 1,
            i <= n,
            w@.len() == i,
            forall|k: int| 0 <= k < i ==> #[trigger] w@[k] == step_spec(ms, v@, sb as int)[k],
        decreases n - i,
    {
        let row = &m[i];
        let mut acc: u128 = 0;
        let mut j: usize = 0;
        while j < n
            invariant
                is_square(ms, n as int),
                ms == m@.map_values(|r: Vec<u32>| r@),
                v@.len() == n,
                n <= 4096,
                i < n,
                j <= n,
                row@ == ms[i as int],
                acc == row_dot(row@.take(j as int), v@.take(j as int)),
                acc <= j * 0x1_0000_0000 * 0xffff_ffff_ffff_ffff,
            decreases n - j,
        {
            proof {
                assert(row@.take(j + 1).drop_last() =~= row@.take(j as int));
                assert(v@.take(j + 1).drop_last() =~= v@.take(j as int));
                assert(row@.take(j + 1).last() == row@[j as int]);
                assert(v@.take(j + 1).last() == v@[j as int]);
                assert(acc + row@[j as int] * v@[j as int] <= (j + 1) * 0x1_0000_0000
                    * 0xffff_ffff_ffff_ffff) by (nonlinear_arith)
                    requires
                        acc <= j * 0x1_0000_0000 * 0xffff_ffff_ffff_ffff,
                        0 <= row@[j as int] < 0x1_0000_0000,
                        0 <= v@[j as int] <= 0xffff_ffff_ffff_ffff,
                        0 <= j,
                ;
                assert((j + 1) * 0x1_0000_0000 * 0xffff_ffff_ffff_ffff <= 4096 * 0x1_0000_0000
                    * 0xffff_ffff_ffff_ffff) by (nonlinear_arith)
                    requires
                        j + 1 <= 4096,
                ;
            }
            acc = acc + (row[j] as u128) * (v[j] as u128);
            j = j + 1;
        }
        proof {
            assert(row@.take(n as int) =~= row@);
            assert(v@.take(n as int) =~= v@);
        }
        let q: u128 = acc / (sb as u128);
        let e: u64 = if q >= FIXED_ONE as u128 {
            FIXED_ONE
        } else {
            q as u64
        };
        proof {
            assert(e == step_spec(ms, v@, sb as int)[i as int]);
        }
        w.push(e);
        i = i + 1;
    }
    proof {
        assert(w@ =~= step_spec(ms, v@, sb as int));
    }
    w
}

/// Exact L1 distance between two equal-length mass vectors, saturating well
/// below any overflow.
pub fn l1_distance(a: &Vec<u64>, b: &Vec<u64>) -> (d: u128)
    requires
        a@.len() == b@.len(),
    ensures
        d == l1_dist(a@, b@),
{
    let n = a.len();
    let mut acc: u128 = 0;
    let mut i: usize = 0;
    while i < n
        invariant
            a@.len() == n,
            b@.len() == n,
            i <= n,
            acc == l1_dist(a@.take(i as int), b@.take(i as int)),
            acc <= i * 0xffff_ffff_ffff_ffff,
        decreases n - i,
    {
        proof {
            assert(a@.take(i + 1).drop_last() =~= a@.take(i as int));
            assert(b@.take(i + 1).drop_last() =~= b@.take(i as int));
            assert(acc + 0xffff_ffff_ffff_ffff <= (i + 1) * 0xffff_ffff_ffff_ffff)
                by (nonlinear_arith)
                requires
                    acc <= i * 0xffff_ffff_ffff_ffff,
                    0 <= i,
            ;
        }
        let ai = a[i];
        let bi = b[i];
        let diff: u64 = if ai >= bi {
            ai - bi
        } else {
            bi - ai
        };
        acc = acc + diff as u128;
        i = i + 1;
    }
    proof {
        assert(a@.take(n as int) =~= a@);
        assert(b@.take(n as int) =~= b@);
    }
    acc
}

/// The uniform starting distribution.
pub fn uniform(n: usize) -> (v: Vec<u64>)
    requires
        1 <= n,
    ensures
        v@ == uniform_spec(n as nat),
{
    let e: u64 = FIXED_ONE / (n as u64);
    let mut v: Vec<u64> = Vec::new();
    while v.len() < n
        invariant
            1 <= n,
            e == FIXED_ONE as int / n as int,
            v@.len() <= n,
            forall|k: int| 0 <= k < v@.len() ==> #[trigger] v@[k] == e,
        decreases n - v@.len(),
    {
        v.push(e);
    }
    proof {
        assert(v@ =~= uniform_spec(n as nat));
    }
    v
}

/// Power iteration from the uniform start: at most `max_iterations` steps,
/// stopping early on convergence.  Always returns a vector; the result is
/// exactly the one prescribed by [`iterate_spec`].
pub fn iterate(m: &Vec<Vec<u32>>, sb: u32, max_iterations: usize, tolerance: u64) -> (r: Vec<u64>)
    requires
        is_square(m@.map_values(|r: Vec<u32>| r@), m@.len() as int),
        1 <= m@.len() <= 4096,
        sb >= 1,
    ensures
        r@ == iterate_spec(
            m@.map_values(|r: Vec<u32>| r@),
            uniform_spec(m@.len() as nat),
            sb as int,
            tolerance,
            max_iterations as nat,
        ),
{
    let ghost ms = m@.map_values(|r: Vec<u32>| r@);
    let n = m.len();
    let mut cur: Vec<u64> = uniform(n);
    let mut k: usize = 0;
    let mut done: bool = false;
    while k < max_iterations && !done
        invariant
            is_square(ms, n as int),
            ms == m@.map_values(|r: Vec<u32>| r@),
            1 <= n <= 4096,
            sb >= 1,
            k <= max_iterations,
            cur@.len() == n,
            done ==> iterate_spec(ms, uniform_spec(n as nat), sb as int, tolerance,
            max_iterations as nat) == cur@,
            !done ==> iterate_spec(ms, uniform_spec(n as nat), sb as int, tolerance,
            max_iterations as nat) == iterate_spec(
                ms,
                cur@,
                sb as int,
                tolerance,
                (max_iterations - k) as nat,
            ),
        decreases max_iterations - k + if done {
            0int
        } else {
            1int
        },
    {
        let w = step(m, &cur, sb);
        let d = l1_distance(&w, &cur);
        if d < tolerance as u128 {
            done = true;
        }
        cur = w;
        k = k + 1;
    }
    cur
}

} // verus!
