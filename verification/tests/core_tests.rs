use logistic_buckets::power::{iterate, FIXED_ONE};
use logistic_buckets::rat::{rat_eq, Rat};
use logistic_buckets::render::{fix_of_ratio, intensity, render, render_power, sweep_params, RenderConfig, Strategy};
use logistic_buckets::solve::{check_product_identity, perturb_and_invert, solve, SolveError, Stationary};
use logistic_buckets::transition::{build, dest_bucket, Params};

fn params(buckets: usize, subbuckets: usize, r_num: i64, r_den: i64) -> Params {
    Params { buckets, subbuckets, r_num, r_den }
}

fn column_sum(m: &Vec<Vec<u32>>, j: usize) -> u64 {
    let mut s: u64 = 0;
    for row in m.iter() {
        s += row[j] as u64;
    }
    s
}

#[test]
fn column_sums_are_at_most_subbuckets() {
    // r = 3.9: every sample image stays inside [0, 1), so every column
    // carries the full sample count.
    let p = params(4, 100, 39, 10);
    let m = build(&p);
    for j in 0..4 {
        assert_eq!(column_sum(&m, j), 100);
    }
}

#[test]
fn out_of_range_sample_is_discarded() {
    // r = 4: the sample at x = 0.5 exactly maps to 1.0, outside [0, 1),
    // and is dropped; every other sample stays.
    let p = params(4, 100, 4, 1);
    let m = build(&p);
    assert_eq!(column_sum(&m, 2), 99);
    assert_eq!(column_sum(&m, 0), 100);
    assert_eq!(column_sum(&m, 1), 100);
    assert_eq!(column_sum(&m, 3), 100);
    assert!(dest_bucket(&p, 2, 0).is_none());
}

#[test]
fn build_is_deterministic() {
    let p = params(8, 64, 39, 10);
    let a = build(&p);
    let b = build(&p);
    assert_eq!(a, b);
}

#[test]
fn identity_matrix_fixes_uniform() {
    // A matrix that maps every bucket to itself with full mass leaves the
    // uniform start unchanged, converging immediately.
    let n = 4;
    let sb = 100u32;
    let mut m = vec![vec![0u32; n]; n];
    for i in 0..n {
        m[i][i] = sb;
    }
    let dist = iterate(&m, sb, 50, 1000);
    let uniform = FIXED_ONE / n as u64;
    for i in 0..n {
        assert_eq!(dist[i], uniform);
    }
}

#[test]
fn degenerate_map_concentrates_in_bucket_zero() {
    // r = 0: every sample maps to 0, so the matrix has row 0 all full and
    // iteration converges after one step to all mass in bucket 0.
    let p = params(4, 100, 0, 1);
    let m = build(&p);
    for j in 0..4 {
        assert_eq!(m[0][j], 100);
        for i in 1..4 {
            assert_eq!(m[i][j], 0);
        }
    }
    let dist = iterate(&m, 100, 10, 4294967);
    assert_eq!(dist[0], FIXED_ONE);
    assert_eq!(dist[1], 0);
    assert_eq!(dist[2], 0);
    assert_eq!(dist[3], 0);
}

#[test]
fn solve_invertible_gives_exact_residual() {
    // Zero counts: damped minus identity is -(4/5) I, so the solution of
    // the inhomogeneous system is -5/4 in every coordinate.
    let n = 3;
    let m = vec![vec![0u32; n]; n];
    let noise = vec![0i64];
    let out = solve(&m, 100, &noise, 3).unwrap();
    match out {
        Stationary::Direct { x } => {
            assert_eq!(x.len(), n);
            let expected = Rat { n: -5, d: 4 };
            for xi in x.iter() {
                assert!(rat_eq(xi, &expected));
            }
        },
        Stationary::Perturbed { .. } => panic!("expected the direct solve"),
    }
}

#[test]
fn singular_base_with_zero_noise_reports_singular() {
    // Identity counts: damped minus identity is the zero matrix, and zero
    // noise cannot make it invertible, so the retry budget runs out.
    let n = 3;
    let sb = 100u32;
    let mut m = vec![vec![0u32; n]; n];
    for i in 0..n {
        m[i][i] = sb;
    }
    let noise = vec![0i64];
    let out = solve(&m, sb, &noise, 4);
    assert_eq!(out.unwrap_err(), SolveError::Singular);
}

#[test]
fn perturbed_retry_returns_certified_inverse() {
    // The zero base is singular; a diagonal noise draw makes it
    // invertible, and the returned pair multiplies to the identity.
    let n = 2;
    let base = vec![vec![Rat { n: 0, d: 1 }; n]; n];
    let noise = vec![1000i64, 0, 0, 1000];
    let (p, inv) = perturb_and_invert(&base, &noise, 3).unwrap();
    assert!(check_product_identity(&p, &inv));
    // The perturbed diagonal is 1000/2000000 = 1/2000, so its inverse
    // diagonal is 2000.
    assert!(rat_eq(&p[0][0], &Rat { n: 1, d: 2000 }));
    assert!(rat_eq(&inv[0][0], &Rat { n: 2000, d: 1 }));
    assert!(rat_eq(&inv[0][1], &Rat { n: 0, d: 1 }));
}

#[test]
fn retry_reads_a_fresh_noise_window() {
    // Attempt 0 reads stream positions 0..4 (a singular perturbation);
    // attempt 1 shifts the window by one and reads positions 1..5, whose
    // diagonal draw is invertible, so the second attempt succeeds.
    let n = 2;
    let base = vec![vec![Rat { n: 0, d: 1 }; n]; n];
    let noise = vec![0i64, 1000, 0, 0, 1000, 0, 0];
    let (p, inv) = perturb_and_invert(&base, &noise, 3).unwrap();
    assert!(rat_eq(&p[0][0], &Rat { n: 1, d: 2000 }));
    assert!(rat_eq(&p[0][1], &Rat { n: 0, d: 1 }));
    assert!(rat_eq(&p[1][0], &Rat { n: 0, d: 1 }));
    assert!(rat_eq(&p[1][1], &Rat { n: 1, d: 2000 }));
    assert!(rat_eq(&inv[0][0], &Rat { n: 2000, d: 1 }));
    assert!(check_product_identity(&p, &inv));
}

#[test]
fn intensity_endpoints_and_quartic_midpoint() {
    assert_eq!(intensity(0), 255);
    assert_eq!(intensity(FIXED_ONE), 0);
    // Mass 1/16: fourth root is 1/2, floor(255/2) = 127, intensity 128.
    assert_eq!(intensity(FIXED_ONE / 16), 128);
}

#[test]
fn fix_of_ratio_is_exact_floor() {
    assert_eq!(fix_of_ratio(1, 2), 1u64 << 31);
    assert_eq!(fix_of_ratio(1, 3), 1431655765);
    assert_eq!(fix_of_ratio(7, 7), 1u64 << 32);
    assert_eq!(fix_of_ratio(0, 5), 0);
}

#[test]
fn sweep_interpolates_parameter_bounds() {
    let cfg = RenderConfig {
        buckets: 4,
        subbuckets: 10,
        steps: 4,
        r_min_num: 3,
        r_min_den: 1,
        r_max_num: 4,
        r_max_den: 1,
        max_iterations: 5,
        tolerance: 1000,
        max_attempts: 2,
    };
    let p0 = sweep_params(&cfg, 0);
    // r_0 = 3 exactly: 12/4.
    assert_eq!(p0.r_num as f64 / p0.r_den as f64, 3.0);
    let p2 = sweep_params(&cfg, 2);
    // r_2 = 3.5 exactly: 14/4.
    assert_eq!(p2.r_num as f64 / p2.r_den as f64, 3.5);
}

#[test]
fn degenerate_render_paints_bucket_zero_dark() {
    // A sweep pinned at r = 0 concentrates all mass in bucket 0: that
    // pixel is fully dark (0) and all others fully bright (255).
    let cfg = RenderConfig {
        buckets: 4,
        subbuckets: 100,
        steps: 4,
        r_min_num: 0,
        r_min_den: 1,
        r_max_num: 0,
        r_max_den: 1,
        max_iterations: 10,
        tolerance: 4294967,
        max_attempts: 2,
    };
    let img = render_power(&cfg);
    assert_eq!(img.len(), 4);
    for col in img.iter() {
        assert_eq!(col.len(), 4);
        assert_eq!(col[0], 0);
        assert_eq!(col[1], 255);
        assert_eq!(col[2], 255);
        assert_eq!(col[3], 255);
    }
}

fn entropy(dist: &Vec<u64>) -> f64 {
    let total: f64 = dist.iter().map(|&m| m as f64).sum();
    let mut h = 0.0f64;
    for &m in dist.iter() {
        if m > 0 {
            let p = m as f64 / total;
            h -= p * p.ln();
        }
    }
    h
}

#[test]
fn entropy_rises_toward_the_chaotic_regime() {
    // Sweeping r over [3, 4), the distributions of the upper half of the
    // sweep are on average more spread out than those of the lower half.
    let cfg = RenderConfig {
        buckets: 64,
        subbuckets: 64,
        steps: 16,
        r_min_num: 3,
        r_min_den: 1,
        r_max_num: 4,
        r_max_den: 1,
        max_iterations: 60,
        tolerance: 4294967,
        max_attempts: 2,
    };
    let mut low = 0.0f64;
    let mut high = 0.0f64;
    for y in 0..cfg.steps {
        let p = sweep_params(&cfg, y);
        let m = build(&p);
        let dist = iterate(&m, cfg.subbuckets as u32, cfg.max_iterations, cfg.tolerance);
        let h = entropy(&dist);
        if y < cfg.steps / 2 {
            low += h;
        } else {
            high += h;
        }
    }
    assert!(high > low, "entropy should grow toward the chaotic regime: {low} vs {high}");
}

#[test]
fn solve_singular_base_recovers_through_perturbation() {
    // Identity counts give the zero system; diagonal noise of 1/2000 makes
    // it invertible, and the certified outcome names the perturbed matrix.
    let n = 2;
    let sb = 100u32;
    let mut m = vec![vec![0u32; n]; n];
    for i in 0..n {
        m[i][i] = sb;
    }
    let noise = vec![1000i64, 0, 0, 1000];
    match solve(&m, sb, &noise, 3).unwrap() {
        Stationary::Perturbed { perturbed, x } => {
            assert!(rat_eq(&perturbed[0][0], &Rat { n: 1, d: 2000 }));
            assert!(rat_eq(&x[0], &Rat { n: 2000, d: 1 }));
            assert!(rat_eq(&x[1], &Rat { n: 2000, d: 1 }));
        },
        Stationary::Direct { .. } => panic!("the unperturbed system is singular"),
    }
}

#[test]
fn render_dispatches_both_strategies() {
    // r = 4: one sample escapes, the columns are strictly substochastic,
    // and the damped-minus-identity system is exactly invertible.
    let cfg = RenderConfig {
        buckets: 2,
        subbuckets: 2,
        steps: 2,
        r_min_num: 4,
        r_min_den: 1,
        r_max_num: 4,
        r_max_den: 1,
        max_iterations: 8,
        tolerance: 1000,
        max_attempts: 8,
    };
    let noise = vec![977i64, -320, 541, -88];
    let a = render(&cfg, &Strategy::PowerIteration, &noise).unwrap();
    assert_eq!(a.len(), 2);
    assert_eq!(a[0].len(), 2);
    let b = render(&cfg, &Strategy::NearInverse, &noise).unwrap();
    assert_eq!(b.len(), 2);
    assert_eq!(b[0].len(), 2);
    // The normalized maximum-magnitude bucket is painted fully dark.
    assert!(b[0].iter().any(|&v| v == 0));
}
