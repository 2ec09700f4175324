//! Rendering distributions into a grayscale diagram.
//!
//! One column of the image is one sweep step: the parameter `r` is the
//! linear interpolation between the sweep bounds at that step, the column's
//! distribution comes from the chosen solver strategy, and each bucket's
//! mass `m` becomes the intensity `255 - floor(255 * (m)^(1/4))` against
//! the fixed-point denominator [`FIXED_ONE`] -- a fourth-root compressive
//! mapping that emphasizes low-probability regions, computed exactly in
//! integers.  For the algebraic strategy the entries are first taken by
//! magnitude and normalized by the maximum-magnitude entry (quantized to
//! fixed point by an exact floor), so brightness is comparable across
//! columns.

use vstd::prelude::*;
use vstd::arithmetic::div_mod::lemma_fundamental_div_mod_converse;
use vstd::arithmetic::power2::{pow2, lemma_pow2_unfold, lemma2_to64};
use crate::power::{FIXED_ONE, is_square, iterate, iterate_spec, step_spec, uniform_spec};
use crate::rat::{Rat, abs_int, q_le_abs, rat_abs_le};
use crate::solve::{
    Stationary,
    StationarySpec,
    SolveError,
    certified_solution,
    dmi_spec,
    lemma_certified_perturbed,
    lemma_residual_nonzero,
    mat_view,
    solve,
    solve_spec,
    vec_wf,
};
use crate::transition::{Params, build, lemma_count_dest_bounds, matrix_spec};

verus! {

/// The largest `k <= bound` with `k^4 * FIXED_ONE <= 255^4 * m`: the floor
/// of `255 * (m / FIXED_ONE)^(1/4)` when `bound` is 255.
pub open spec fn root_scale(m: int, bound: nat) -> int
    decreases bound,
{
    if bound == 0 {
        0
    } else if bound * bound * bound * bound * FIXED_ONE <= 255 * 255 * 255 * 255 * m {
        bound as int
    } else {
        root_scale(m, (bound - 1) as nat)
    }
}

/// The intensity of a bucket of fixed-point mass `m`.
pub open spec fn intensity_spec(m: int) -> u8 {
    (255 - root_scale(m, 255)) as u8
}

/// Computes the fourth-root compressive intensity, exactly.
pub fn intensity(m: u64) -> (r: u8)
    requires
        m <= FIXED_ONE,
    ensures
        r == intensity_spec(m as int),
{
    let mut k: u64 = 255;
    loop
        invariant
            m <= FIXED_ONE,
            k <= 255,
            root_scale(m as int, 255) == root_scale(m as int, k as nat),
        decreases k,
    {
        if k == 0 {
            return 255;
        }
        proof {
            assert(k * k <= 255 * 255 && k * k * k <= 255 * 255 * 255 && k * k * k * k <= 255
                * 255 * 255 * 255) by (nonlinear_arith)
                requires
                    0 <= k <= 255,
            ;
        }
        let k4: u64 = k * k * k * k;
        let c255: u128 = 4228250625;
        proof {
            assert(c255 * (m as u128) <= 4228250625 * 0x1_0000_0000);
            assert(c255 * (m as u128) == 255 * 255 * 255 * 255 * (m as int)) by (nonlinear_arith)
                requires
                    c255 == 4228250625,
            ;
        }
        if (k4 as u128) * (FIXED_ONE as u128) <= c255 * (m as u128) {
            proof {
                assert(root_scale(m as int, k as nat) == k);
            }
            return (255 - k) as u8;
        }
        k = k - 1;
    }
}

/// The quotient `(p * FIXED_ONE) / q`, exactly, for `p <= q`, by binary
/// long division; no intermediate leaves 128 bits.
pub fn fix_of_ratio(p: u128, q: u128) -> (m: u64)
    requires
        1 <= q <= 0x4000_0000_0000_0000_0000_0000_0000_0000,
        p <= q,
    ensures
        m == (p * FIXED_ONE) / (q as int),
{
    let mut m: u64 = if p == q {
        1
    } else {
        0
    };
    let mut r: u128 = if p == q {
        0
    } else {
        p
    };
    let mut i: u64 = 0;
    proof {
        lemma_fundamental_div_mod_converse(p as int, q as int, m as int, r as int);
        assert(pow2(0) == 1) by {
            lemma2_to64();
        }
    }
    while i < 32
        invariant
            1 <= q <= 0x4000_0000_0000_0000_0000_0000_0000_0000,
            p <= q,
            i <= 32,
            r < q,
            m <= pow2(i as nat),
            m == (p * pow2(i as nat)) / (q as int),
            r == p * pow2(i as nat) - m * (q as int),
        decreases 32 - i,
    {
        let ghost sp = p * pow2(i as nat);
        proof {
            lemma_pow2_unfold((i + 1) as nat);
            assert(p * pow2((i + 1) as nat) == 2 * sp) by (nonlinear_arith)
                requires
                    pow2((i + 1) as nat) == 2 * pow2(i as nat),
                    sp == p * pow2(i as nat),
            ;
            assert(2 * sp == (2 * m) * (q as int) + 2 * r) by (nonlinear_arith)
                requires
                    sp == m * (q as int) + r,
            ;
            assert(m <= pow2(i as nat) ==> 2 * m + 1 <= 2 * pow2(i as nat) + 1);
            // When m reaches its ceiling the remainder is zero, so the
            // incremented quotient is never taken there.
            assert(m * (q as int) + r <= pow2(i as nat) * (q as int)) by (nonlinear_arith)
                requires
                    sp == m * (q as int) + r,
                    sp == p * pow2(i as nat),
                    p <= q,
                    0 <= pow2(i as nat),
            ;
        }
        let r2: u128 = r * 2;
        proof {
            vstd::arithmetic::power2::lemma_pow2_strictly_increases(i as nat, 32);
            lemma2_to64();
            assert(m < 0x1_0000_0000);
        }
        if r2 >= q {
            proof {
                assert(2 * sp == (2 * m + 1) * (q as int) + (r2 - q)) by (nonlinear_arith)
                    requires
                        2 * sp == (2 * m) * (q as int) + 2 * r,
                        r2 == 2 * r,
                ;
                assert(m < pow2(i as nat)) by (nonlinear_arith)
                    requires
                        m * (q as int) + r <= pow2(i as nat) * (q as int),
                        r2 >= q,
                        r2 == 2 * r,
                        q >= 1,
                        r < q,
                        m <= pow2(i as nat),
                ;
                lemma_fundamental_div_mod_converse(
                    2 * sp,
                    q as int,
                    2 * m + 1,
                    r2 - q,
                );
            }
            m = 2 * m + 1;
            r = r2 - q;
        } else {
            proof {
                lemma_fundamental_div_mod_converse(2 * sp, q as int, 2 * m, r2 as int);
            }
            m = 2 * m;
            r = r2;
        }
        i = i + 1;
    }
    proof {
        assert(pow2(32) == FIXED_ONE) by {
            lemma2_to64();
        }
    }
    m
}

/// Configuration of a full diagram: the discretization granularity, the
/// sweep of the map parameter `r` over `[r_min, r_max)` in `steps` columns,
/// and the solver budgets.
pub struct RenderConfig {
    pub buckets: usize,
    pub subbuckets: usize,
    /// Number of sweep steps, one image column each.
    pub steps: usize,
    pub r_min_num: i64,
    pub r_min_den: i64,
    pub r_max_num: i64,
    pub r_max_den: i64,
    pub max_iterations: usize,
    pub tolerance: u64,
    pub max_attempts: usize,
}

impl RenderConfig {
    /// Bounds under which every sweep parameter is exactly representable.
    pub open spec fn valid(self) -> bool {
        &&& 1 <= self.buckets <= 4096
        &&& 1 <= self.subbuckets <= 65536
        &&& 1 <= self.steps <= 4096
        &&& 1 <= self.r_min_den <= 10000
        &&& 1 <= self.r_max_den <= 10000
        &&& -1000000 <= self.r_min_num <= 1000000
        &&& -1000000 <= self.r_max_num <= 1000000
    }
}

/// The map parameters of sweep step `y`: the rational
/// `r_min + (r_max - r_min) * y / steps`, over the common denominator
/// `r_min_den * r_max_den * steps`.
pub open spec fn params_for(cfg: RenderConfig, y: int) -> Params {
    Params {
        buckets: cfg.buckets,
        subbuckets: cfg.subbuckets,
        r_num: (cfg.r_min_num * cfg.r_max_den * cfg.steps + (cfg.r_max_num * cfg.r_min_den
            - cfg.r_min_num * cfg.r_max_den) * y) as i64,
        r_den: (cfg.r_min_den * cfg.r_max_den * cfg.steps) as i64,
    }
}

/// Sweep parameters are valid transition parameters.
pub proof fn lemma_params_for_valid(cfg: RenderConfig, y: int)
    requires
        cfg.valid(),
        0 <= y < cfg.steps,
    ensures
        params_for(cfg, y).valid(),
        params_for(cfg, y).buckets == cfg.buckets,
        params_for(cfg, y).subbuckets == cfg.subbuckets,
{
    assert(1 <= cfg.r_min_den * cfg.r_max_den * cfg.steps <= 0x4_0000_0000_0000
        && -0x4_0000_0000_0000 <= cfg.r_min_num * cfg.r_max_den * cfg.steps + (cfg.r_max_num
        * cfg.r_min_den - cfg.r_min_num * cfg.r_max_den) * y <= 0x4_0000_0000_0000)
        by (nonlinear_arith)
        requires
            1 <= cfg.r_min_den <= 10000,
            1 <= cfg.r_max_den <= 10000,
            1 <= cfg.steps <= 4096,
            -1000000 <= cfg.r_min_num <= 1000000,
            -1000000 <= cfg.r_max_num <= 1000000,
            0 <= y < cfg.steps,
    ;
}

/// Computes the sweep parameters of step `y`, exactly.
pub fn sweep_params(cfg: &RenderConfig, y: usize) -> (p: Params)
    requires
        cfg.valid(),
        y < cfg.steps,
    ensures
        p == params_for(*cfg, y as int),
        p.valid(),
{
    proof {
        lemma_params_for_valid(*cfg, y as int);
        assert(cfg.r_min_den * cfg.r_max_den <= 100000000 && cfg.r_min_den * cfg.r_max_den
            * cfg.steps <= 0x4_0000_0000_0000 && -10000000000 <= cfg.r_max_num * cfg.r_min_den
            <= 10000000000 && -10000000000 <= cfg.r_min_num * cfg.r_max_den <= 10000000000
            && -20000000000 <= cfg.r_max_num * cfg.r_min_den
            - cfg.r_min_num * cfg.r_max_den <= 20000000000 && -0x4_0000_0000_0000
            <= cfg.r_min_num * cfg.r_max_den * cfg.steps <= 0x4_0000_0000_0000
            && -0x4_0000_0000_0000 <= (cfg.r_max_num * cfg.r_min_den - cfg.r_min_num
            * cfg.r_max_den) * (y as int) <= 0x4_0000_0000_0000) by (nonlinear_arith)
            requires
                1 <= cfg.r_min_den <= 10000,
                1 <= cfg.r_max_den <= 10000,
                1 <= cfg.steps <= 4096,
                -1000000 <= cfg.r_min_num <= 1000000,
                -1000000 <= cfg.r_max_num <= 1000000,
                0 <= y < cfg.steps,
        ;
    }
    let den: i64 = cfg.r_min_den * cfg.r_max_den * (cfg.steps as i64);
    let span: i64 = cfg.r_max_num * cfg.r_min_den - cfg.r_min_num * cfg.r_max_den;
    let num: i64 = cfg.r_min_num * cfg.r_max_den * (cfg.steps as i64) + span * (y as i64);
    Params { buckets: cfg.buckets, subbuckets: cfg.subbuckets, r_num: num, r_den: den }
}

/// The distribution painted into column `y` under power iteration.
pub open spec fn power_distribution(cfg: RenderConfig, y: int) -> Seq<u64> {
    iterate_spec(
        matrix_spec(params_for(cfg, y)),
        uniform_spec(cfg.buckets as nat),
        cfg.subbuckets as int,
        cfg.tolerance,
        cfg.max_iterations as nat,
    )
}

/// The pixels of column `y` under power iteration.
pub open spec fn power_column(cfg: RenderConfig, y: int) -> Seq<u8> {
    power_distribution(cfg, y).map_values(|m: u64| intensity_spec(m as int))
}

/// Entries of an iterate stay within the fixed-point range.
proof fn lemma_row_dot_nonneg(row: Seq<u32>, v: Seq<u64>)
    ensures
        crate::power::row_dot(row, v) >= 0,
    decreases row.len(),
{
    if row.len() == 0 || v.len() == 0 {
    } else {
        lemma_row_dot_nonneg(row.drop_last(), v.drop_last());
        assert(row.last() * v.last() >= 0) by (nonlinear_arith)
            requires
                row.last() >= 0,
                v.last() >= 0,
        ;
    }
}

proof fn lemma_iterate_bounded(m: Seq<Seq<u32>>, v: Seq<u64>, sb: int, tol: u64, fuel: nat)
    requires
        sb >= 1,
        is_square(m, v.len() as int),
        forall|i: int| 0 <= i < v.len() ==> #[trigger] v[i] <= FIXED_ONE,
    ensures
        iterate_spec(m, v, sb, tol, fuel).len() == v.len(),
        forall|i: int|
            0 <= i < v.len() ==> #[trigger] iterate_spec(m, v, sb, tol, fuel)[i] <= FIXED_ONE,
    decreases fuel,
{
    if fuel > 0 {
        let w = step_spec(m, v, sb);
        assert forall|i: int| 0 <= i < w.len() implies #[trigger] w[i] <= FIXED_ONE by {
            lemma_row_dot_nonneg(m[i], v);
            assert(crate::power::row_dot(m[i], v) / sb >= 0) by (nonlinear_arith)
                requires
                    crate::power::row_dot(m[i], v) >= 0,
                    sb >= 1,
            ;
        }
        lemma_iterate_bounded(m, w, sb, tol, (fuel - 1) as nat);
    }
}

/// Renders the full diagram with the power-iteration strategy: one column
/// per sweep step, each pixel pinned exactly by [`power_column`].  Total:
/// never fails.
pub fn render_power(cfg: &RenderConfig) -> (img: Vec<Vec<u8>>)
    requires
        cfg.valid(),
    ensures
        img@.len() == cfg.steps,
        forall|y: int| 0 <= y < cfg.steps ==> (#[trigger] img@[y])@ == power_column(*cfg, y),
{
    let mut img: Vec<Vec<u8>> = Vec::new();
    let mut y: usize = 0;
    while y < cfg.steps
        invariant
            cfg.valid(),
            y <= cfg.steps,
            img@.len() == y,
            forall|y2: int| 0 <= y2 < y ==> (#[trigger] img@[y2])@ == power_column(*cfg, y2),
        decreases cfg.steps - y,
    {
        let p = sweep_params(cfg, y);
        let m = build(&p);
        let ghost ms = m@.map_values(|r: Vec<u32>| r@);
        proof {
            assert forall|i: int, j: int|
                0 <= i < p.buckets && 0 <= j < p.buckets implies #[trigger] matrix_spec(p)[i][j]
                == ms[i][j] by {
                lemma_count_dest_bounds(p, j, i, p.subbuckets as nat);
                assert(ms[i] == m@[i]@);
            }
            assert forall|i: int| 0 <= i < p.buckets implies #[trigger] matrix_spec(p)[i]
                =~= ms[i] by {
                assert(ms[i] == m@[i]@);
            }
            assert(matrix_spec(p) =~= ms);
            assert(is_square(ms, m@.len() as int));
        }
        let dist = iterate(&m, p.subbuckets as u32, cfg.max_iterations, cfg.tolerance);
        proof {
            assert forall|i: int|
                0 <= i < cfg.buckets implies #[trigger] uniform_spec(cfg.buckets as nat)[i]
                <= FIXED_ONE by {
                assert(FIXED_ONE as int / cfg.buckets as int <= FIXED_ONE) by (nonlinear_arith)
                    requires
                        1 <= cfg.buckets,
                ;
            }
            lemma_iterate_bounded(
                ms,
                uniform_spec(cfg.buckets as nat),
                cfg.subbuckets as int,
                cfg.tolerance,
                cfg.max_iterations as nat,
            );
        }
        let mut col: Vec<u8> = Vec::new();
        let mut x: usize = 0;
        while x < cfg.buckets
            invariant
                cfg.valid(),
                y < cfg.steps,
                dist@ == power_distribution(*cfg, y as int),
                dist@.len() == cfg.buckets,
                forall|i: int| 0 <= i < dist@.len() ==> #[trigger] dist@[i] <= FIXED_ONE,
                x <= cfg.buckets,
                col@.len() == x,
                forall|i: int|
                    0 <= i < x ==> #[trigger] col@[i] == intensity_spec(dist@[i] as int),
            decreases cfg.buckets - x,
        {
            col.push(intensity(dist[x]));
            x = x + 1;
        }
        proof {
            assert(col@ =~= power_column(*cfg, y as int));
        }
        img.push(col);
        y = y + 1;
    }
    img
}

/// `mx` is an entry of `x` of maximal magnitude.
pub open spec fn is_max_abs(x: Seq<Rat>, mx: Rat) -> bool {
    &&& exists|i: int| 0 <= i < x.len() && x[i] == mx
    &&& forall|i: int| 0 <= i < x.len() ==> q_le_abs(#[trigger] x[i], mx)
}

/// The fixed-point quantization of `|xi| / |mx|`.
pub open spec fn norm_fixed(xi: Rat, mx: Rat) -> int {
    (abs_int(xi@.n) * mx@.d * FIXED_ONE) / (xi@.d * abs_int(mx@.n))
}

/// The pixels of a column painted from a solution vector `x` normalized by
/// its maximum-magnitude entry `mx`.
pub open spec fn inverse_column_pixels(x: Seq<Rat>, mx: Rat) -> Seq<u8> {
    x.map_values(|xi: Rat| intensity_spec(norm_fixed(xi, mx)))
}

/// The pixels `pix` of column `y` come from some certified solution of the
/// damped near-inverse solve at that column's parameter, taken by
/// magnitude, normalized by its maximum-magnitude entry and compressed by
/// the fourth-root intensity map.
pub open spec fn certified_column(cfg: RenderConfig, y: int, pix: Seq<u8>) -> bool {
    exists|x: Seq<Rat>, mx: Rat|
        {
            &&& x.len() == cfg.buckets
            &&& vec_wf(x)
            &&& mx.wf()
            &&& mx.n != 0
            &&& certified_solution(
                dmi_spec(matrix_spec(params_for(cfg, y)), cfg.subbuckets as int),
                x,
            )
            &&& is_max_abs(x, mx)
            &&& pix == #[trigger] inverse_column_pixels(x, mx)
        }
}

/// Introduction form of [`certified_column`], from explicit witnesses.
pub proof fn lemma_certified_column(
    cfg: RenderConfig,
    y: int,
    pix: Seq<u8>,
    x: Seq<Rat>,
    mx: Rat,
)
    requires
        x.len() == cfg.buckets,
        vec_wf(x),
        mx.wf(),
        mx.n != 0,
        certified_solution(dmi_spec(matrix_spec(params_for(cfg, y)), cfg.subbuckets as int), x),
        is_max_abs(x, mx),
        pix == inverse_column_pixels(x, mx),
    ensures
        certified_column(cfg, y, pix),
{
    assert({
        &&& x.len() == cfg.buckets
        &&& vec_wf(x)
        &&& mx.wf()
        &&& mx.n != 0
        &&& certified_solution(dmi_spec(matrix_spec(params_for(cfg, y)), cfg.subbuckets as int), x)
        &&& is_max_abs(x, mx)
        &&& pix == inverse_column_pixels(x, mx)
    });
}

/// The entry of maximal magnitude among `x[i..]`, scanning from `cur`.
pub open spec fn max_abs_from(x: Seq<Rat>, i: int, cur: Rat) -> Rat
    decreases x.len() - i,
{
    if i >= x.len() {
        cur
    } else if !q_le_abs(x[i], cur) {
        max_abs_from(x, i + 1, x[i])
    } else {
        max_abs_from(x, i + 1, cur)
    }
}

/// The maximum-magnitude entry of a non-empty vector, as [`max_abs`]
/// computes it.
pub open spec fn max_abs_spec(x: Seq<Rat>) -> Rat {
    max_abs_from(x, 1, x[0])
}

/// A maximum-magnitude entry of a vector that is not all zeros is itself
/// non-zero.
proof fn lemma_max_abs_nonzero(x: Seq<Rat>, mx: Rat)
    requires
        vec_wf(x),
        mx.wf(),
        is_max_abs(x, mx),
        exists|k: int| 0 <= k < x.len() && (#[trigger] x[k]).n != 0,
    ensures
        mx.n != 0,
{
    let k = choose|k: int| 0 <= k < x.len() && (#[trigger] x[k]).n != 0;
    assert(q_le_abs(x[k], mx));
    assert(abs_int(mx@.n) >= 1) by (nonlinear_arith)
        requires
            abs_int(x[k]@.n) * mx@.d <= abs_int(mx@.n) * x[k]@.d,
            abs_int(x[k]@.n) >= 1,
            mx@.d >= 1,
            x[k]@.d >= 1,
            abs_int(mx@.n) >= 0,
    ;
}

/// Finds the entry of maximal magnitude, exactly [`max_abs_spec`].
fn max_abs(x: &Vec<Rat>) -> (mx: Rat)
    requires
        vec_wf(x@),
        x@.len() >= 1,
    ensures
        mx == max_abs_spec(x@),
        mx.wf(),
        is_max_abs(x@, mx),
{
    let mut mx = x[0];
    let ghost mut wi: int = 0;
    let mut i: usize = 1;
    while i < x.len()
        invariant
            vec_wf(x@),
            1 <= x@.len(),
            1 <= i <= x@.len(),
            0 <= wi < i,
            x@[wi] == mx,
            mx.wf(),
            max_abs_spec(x@) == max_abs_from(x@, i as int, mx),
            forall|k: int| 0 <= k < i ==> q_le_abs(#[trigger] x@[k], mx),
        decreases x@.len() - i,
    {
        if !rat_abs_le(&x[i], &mx) {
            proof {
                lemma_abs_le_total(x@[i as int], mx);
                assert forall|k: int| 0 <= k < i + 1 implies q_le_abs(
                    #[trigger] x@[k],
                    x@[i as int],
                ) by {
                    if k < i {
                        lemma_abs_le_trans(x@[k], mx, x@[i as int]);
                    }
                }
                wi = i as int;
            }
            mx = x[i];
        }
        i = i + 1;
    }
    mx
}

/// `|a| <= |b|` is total: when it fails, the converse holds.
proof fn lemma_abs_le_total(a: Rat, b: Rat)
    requires
        a.wf(),
        b.wf(),
        !q_le_abs(a, b),
    ensures
        q_le_abs(b, a),
{
}

/// Magnitude comparison is transitive over well-formed rationals.
proof fn lemma_abs_le_trans(a: Rat, b: Rat, c: Rat)
    requires
        a.wf(),
        b.wf(),
        c.wf(),
        q_le_abs(a, b),
        q_le_abs(b, c),
    ensures
        q_le_abs(a, c),
{
    assert(abs_int(a@.n) * c@.d <= abs_int(c@.n) * a@.d) by (nonlinear_arith)
        requires
            abs_int(a@.n) * b@.d <= abs_int(b@.n) * a@.d,
            abs_int(b@.n) * c@.d <= abs_int(c@.n) * b@.d,
            b@.d >= 1,
            a@.d >= 1,
            c@.d >= 1,
            abs_int(a@.n) >= 0,
            abs_int(b@.n) >= 0,
            abs_int(c@.n) >= 0,
    ;
}

/// Paints one column from a solution vector, exactly
/// [`inverse_column_pixels`].
fn inverse_column(x: &Vec<Rat>, mx: &Rat) -> (col: Vec<u8>)
    requires
        vec_wf(x@),
        mx.wf(),
        mx.n != 0,
        is_max_abs(x@, *mx),
    ensures
        col@ == inverse_column_pixels(x@, *mx),
{
    let mut col: Vec<u8> = Vec::new();
    let mut i: usize = 0;
    while i < x.len()
        invariant
            vec_wf(x@),
            mx.wf(),
            mx.n != 0,
            is_max_abs(x@, *mx),
            i <= x@.len(),
            col@.len() == i,
            forall|k: int|
                0 <= k < i ==> #[trigger] col@[k] == intensity_spec(norm_fixed(x@[k], *mx)),
        decreases x@.len() - i,
    {
        let xi = x[i];
        let an: i64 = if xi.n < 0 {
            -xi.n
        } else {
            xi.n
        };
        let mn: i64 = if mx.n < 0 {
            -mx.n
        } else {
            mx.n
        };
        proof {
            assert(an as int * mx.d as int <= 0x3fff_ffff_ffff_ffff_0000_0000_0000_0001
                && 1 <= xi.d as int * mn as int <= 0x3fff_ffff_ffff_ffff_0000_0000_0000_0001)
                by (nonlinear_arith)
                requires
                    0 <= an <= 0x7fff_ffff_ffff_ffff,
                    1 <= mn <= 0x7fff_ffff_ffff_ffff,
                    1 <= mx.d <= 0x7fff_ffff_ffff_ffff,
                    1 <= xi.d <= 0x7fff_ffff_ffff_ffff,
            ;
        }
        let p: u128 = (an as u128) * (mx.d as u128);
        let q: u128 = (xi.d as u128) * (mn as u128);
        proof {
            assert(q_le_abs(x@[i as int], *mx));
            assert(p <= q) by (nonlinear_arith)
                requires
                    abs_int(xi@.n) * mx@.d <= abs_int(mx@.n) * xi@.d,
                    p == abs_int(xi@.n) * mx@.d,
                    q == xi@.d * abs_int(mx@.n),
            ;
        }
        let m = fix_of_ratio(p, q);
        proof {
            assert(m == norm_fixed(x@[i as int], *mx)) by (nonlinear_arith)
                requires
                    m == (p * FIXED_ONE) / (q as int),
                    p == abs_int(x@[i as int]@.n) * mx@.d,
                    q == x@[i as int]@.d * abs_int(mx@.n),
                    norm_fixed(x@[i as int], *mx) == (abs_int(x@[i as int]@.n) * mx@.d
                        * FIXED_ONE) / (x@[i as int]@.d * abs_int(mx@.n)),
            ;
            assert(m <= FIXED_ONE) by (nonlinear_arith)
                requires
                    m == (p * FIXED_ONE) / (q as int),
                    p <= q,
                    1 <= q,
            ;
        }
        col.push(intensity(m));
        i = i + 1;
    }
    proof {
        assert(col@ =~= inverse_column_pixels(x@, *mx));
    }
    col
}

/// The mirrored solve of column `y`: the damped near-inverse pipeline on
/// that column's transition matrix.
pub open spec fn column_solve(cfg: RenderConfig, noise: Seq<i64>, y: int) -> Result<
    StationarySpec,
    SolveError,
> {
    solve_spec(
        matrix_spec(params_for(cfg, y)),
        cfg.subbuckets as int,
        noise,
        cfg.max_attempts as int,
    )
}

/// The solution vector carried by a solve outcome.
pub open spec fn solution_of(s: StationarySpec) -> Seq<Rat> {
    match s {
        StationarySpec::Direct { x } => x,
        StationarySpec::Perturbed { p, x } => x,
    }
}

/// The pixels of column `y` under the near-inverse strategy: the mirrored
/// solve's solution, normalized by its maximum-magnitude entry and
/// compressed by the fourth-root intensity map.
pub open spec fn inverse_column_spec(cfg: RenderConfig, noise: Seq<i64>, y: int) -> Seq<u8> {
    match column_solve(cfg, noise, y) {
        Ok(s) => inverse_column_pixels(solution_of(s), max_abs_spec(solution_of(s))),
        Err(_) => Seq::<u8>::empty(),
    }
}

/// Renders the full diagram with the damped near-inverse strategy: one
/// column per sweep step, each pixel pinned by [`inverse_column_spec`].
/// Succeeds exactly when every column's mirrored solve succeeds, and then
/// every column also carries a certified solution ([`certified_column`]);
/// it fails explicitly, with the failing column's error, only otherwise.
pub fn render_inverse(cfg: &RenderConfig, noise: &Vec<i64>) -> (r: Result<Vec<Vec<u8>>, SolveError>)
    requires
        cfg.valid(),
        noise@.len() >= 1,
    ensures
        (r is Ok) == (forall|y: int|
            0 <= y < cfg.steps ==> #[trigger] column_solve(*cfg, noise@, y) is Ok),
        r matches Ok(img) ==> {
            &&& img@.len() == cfg.steps
            &&& forall|y: int|
                0 <= y < cfg.steps ==> (#[trigger] img@[y])@ == inverse_column_spec(
                    *cfg,
                    noise@,
                    y,
                )
            &&& forall|y: int|
                0 <= y < cfg.steps ==> certified_column(*cfg, y, (#[trigger] img@[y])@)
        },
{
    let mut img: Vec<Vec<u8>> = Vec::new();
    let mut y: usize = 0;
    while y < cfg.steps
        invariant
            cfg.valid(),
            noise@.len() >= 1,
            y <= cfg.steps,
            img@.len() == y,
            forall|y2: int| 0 <= y2 < y ==> #[trigger] column_solve(*cfg, noise@, y2) is Ok,
            forall|y2: int|
                0 <= y2 < y ==> (#[trigger] img@[y2])@ == inverse_column_spec(*cfg, noise@, y2),
            forall|y2: int| 0 <= y2 < y ==> certified_column(*cfg, y2, (#[trigger] img@[y2])@),
        decreases cfg.steps - y,
    {
        let p = sweep_params(cfg, y);
        let m = build(&p);
        let ghost ms = m@.map_values(|r: Vec<u32>| r@);
        proof {
            assert forall|i: int, j: int|
                0 <= i < p.buckets && 0 <= j < p.buckets implies #[trigger] matrix_spec(p)[i][j]
                == ms[i][j] by {
                lemma_count_dest_bounds(p, j, i, p.subbuckets as nat);
                assert(ms[i] == m@[i]@);
            }
            assert forall|i: int| 0 <= i < p.buckets implies #[trigger] matrix_spec(p)[i]
                =~= ms[i] by {
                assert(ms[i] == m@[i]@);
            }
            assert(matrix_spec(p) =~= ms);
            assert forall|i: int, j: int|
                0 <= i < m@.len() && 0 <= j < m@.len() implies #[trigger] m@[i]@[j] <= 65536 by {
                lemma_count_dest_bounds(p, j, i, p.subbuckets as nat);
            }
        }
        let sol = match solve(&m, p.subbuckets as u32, noise, cfg.max_attempts) {
            Ok(s) => s,
            Err(e) => {
                proof {
                    assert(column_solve(*cfg, noise@, y as int) is Err);
                    assert(!(forall|y2: int|
                        0 <= y2 < cfg.steps ==> #[trigger] column_solve(*cfg, noise@, y2) is Ok));
                }
                return Err(e);
            },
        };
        let ghost base = dmi_spec(matrix_spec(params_for(*cfg, y as int)), cfg.subbuckets as int);
        let ghost ss = column_solve(*cfg, noise@, y as int)->Ok_0;
        proof {
            assert(base.len() == cfg.buckets);
            assert(base[0].len() == cfg.buckets);
            assert forall|j: int| 0 <= j < cfg.buckets implies (#[trigger] base[0][j]).wf() by {
                lemma_count_dest_bounds(p, j, 0, p.subbuckets as nat);
                assert(base[0][j] == dmi_spec(ms, cfg.subbuckets as int)[0][j]);
            }
        }
        let x = match sol {
            Stationary::Direct { x } => {
                proof {
                    assert(certified_solution(base, x@));
                    assert(solution_of(ss) == x@);
                    lemma_residual_nonzero(base, x@);
                }
                x
            },
            Stationary::Perturbed { perturbed, x } => {
                proof {
                    lemma_certified_perturbed(base, mat_view(perturbed), x@);
                    assert(solution_of(ss) == x@);
                    lemma_residual_nonzero(mat_view(perturbed), x@);
                }
                x
            },
        };
        let mx = max_abs(&x);
        proof {
            lemma_max_abs_nonzero(x@, mx);
        }
        let col = inverse_column(&x, &mx);
        proof {
            lemma_certified_column(*cfg, y as int, col@, x@, mx);
            assert(col@ == inverse_column_spec(*cfg, noise@, y as int));
        }
        img.push(col);
        y = y + 1;
    }
    Ok(img)
}

/// The numerical strategy of a rendering run.
pub enum Strategy {
    /// Power iteration from the uniform start (the primary strategy).
    PowerIteration,
    /// The damped near-inverse solve with randomized-perturbation retry.
    NearInverse,
}

/// Renders the diagram: one column per sweep step, each painted by the
/// chosen strategy.  Power iteration never fails; the near-inverse
/// strategy fails explicitly after its retry budget.
pub fn render(cfg: &RenderConfig, strategy: &Strategy, noise: &Vec<i64>) -> (r: Result<
    Vec<Vec<u8>>,
    SolveError,
>)
    requires
        cfg.valid(),
        noise@.len() >= 1,
    ensures
        strategy is PowerIteration ==> (r matches Ok(img) && img@.len() == cfg.steps && (forall|
            y: int,
        |
            0 <= y < cfg.steps ==> (#[trigger] img@[y])@ == power_column(*cfg, y))),
        strategy is NearInverse ==> ((r is Ok) == (forall|y: int|
            0 <= y < cfg.steps ==> #[trigger] column_solve(*cfg, noise@, y) is Ok)),
        strategy is NearInverse ==> (r matches Ok(img) ==> img@.len() == cfg.steps && (forall|
            y: int,
        |
            0 <= y < cfg.steps ==> (#[trigger] img@[y])@ == inverse_column_spec(*cfg, noise@, y))
            && (forall|y: int|
            0 <= y < cfg.steps ==> certified_column(*cfg, y, (#[trigger] img@[y])@))),
{
    match strategy {
        Strategy::PowerIteration => Ok(render_power(cfg)),
        Strategy::NearInverse => render_inverse(cfg, noise),
    }
}

} // verus!
