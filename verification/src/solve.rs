//! The damped near-inverse solver and its randomized-perturbation fallback.
//!
//! A true fixed point `x` of the transition operator `A` satisfies
//! `(A - I)x = 0`, whose only guaranteed solution is zero.  Following the
//! damping heuristic, the operator is first blended with the identity,
//! `damped = 0.8*A + 0.2*I`, and the homogeneous system is relaxed to the
//! inhomogeneous `(damped - I)x = ones`, which yields a non-trivial,
//! roughly-fixed-point-like vector.  This is a documented heuristic, not a
//! rigorous stationary-distribution computation.
//!
//! With counts `c[i][j]` out of `sb` samples, `damped - I` has the exact
//! rational entries `(4*(c[i][j] - delta_ij*sb)) / (5*sb)` ([`dmi_spec`]).
//! The solver runs exact Gauss-Jordan elimination over rationals and then
//! *certifies* its answer: the returned vector is accepted only after an
//! exact check that the residual is the all-ones vector.  Every step of the
//! pipeline is also mirrored by a specification function ([`invert_spec`],
//! [`pai_spec`], [`solve_spec`]), so each outcome -- success, the exact
//! vector returned, and failure -- is pinned as a function of the inputs
//! alone, and success is owed whenever the mirrored elimination and
//! certification succeed.  When elimination fails --
//! a singular matrix, or an exact-arithmetic overflow, both treated as
//! inversion failure -- a bounded number of perturbed retries is made, each
//! adding caller-supplied noise of magnitude at most `1/2000` per entry,
//! and each certified in the same way.  After the retry cap the solver
//! reports failure explicitly instead of retrying forever.

use vstd::prelude::*;
use crate::rat::{
    Q,
    Rat,
    lemma_q_add_congr,
    lemma_q_add_wf,
    lemma_q_eq_refl,
    lemma_q_eq_sym,
    lemma_q_eq_trans,
    lemma_q_mul_wf,
    q_add,
    q_eq,
    q_mul,
    q_one,
    q_wf,
    q_zero,
    rat_add,
    rat_add_spec,
    rat_eq,
    rat_mul,
    rat_mul_spec,
    rat_recip,
    rat_recip_spec,
    rat_sub,
    rat_sub_spec,
};

verus! {

/// View of an executable matrix as a sequence of rows.
pub open spec fn mat_view(m: Vec<Vec<Rat>>) -> Seq<Seq<Rat>> {
    m@.map_values(|r: Vec<Rat>| r@)
}

/// A well-formed square rational matrix of side `n`.
pub open spec fn mat_wf(a: Seq<Seq<Rat>>, n: int) -> bool {
    &&& a.len() == n
    &&& forall|i: int| 0 <= i < n ==> (#[trigger] a[i]).len() == n
    &&& forall|i: int, j: int| 0 <= i < n && 0 <= j < n ==> (#[trigger] a[i][j]).wf()
}

/// A vector of well-formed rationals.
pub open spec fn vec_wf(x: Seq<Rat>) -> bool {
    forall|i: int| 0 <= i < x.len() ==> (#[trigger] x[i]).wf()
}

/// Exact dot product of two rational sequences.
pub open spec fn q_dot(row: Seq<Rat>, x: Seq<Rat>) -> Q
    decreases row.len(),
{
    if row.len() == 0 || x.len() == 0 {
        q_zero()
    } else {
        q_add(q_dot(row.drop_last(), x.drop_last()), q_mul(row.last()@, x.last()@))
    }
}

/// Column `l` of a matrix.
pub open spec fn col_of(a: Seq<Seq<Rat>>, l: int) -> Seq<Rat> {
    Seq::new(a.len(), |i: int| a[i][l])
}

/// The residual of `x` under `a` is exactly the all-ones vector.
pub open spec fn residual_ones(a: Seq<Seq<Rat>>, x: Seq<Rat>) -> bool {
    forall|i: int| 0 <= i < a.len() ==> q_eq(#[trigger] q_dot(a[i], x), q_one())
}

/// The product `a * b` is exactly the identity matrix.
pub open spec fn product_identity(a: Seq<Seq<Rat>>, b: Seq<Seq<Rat>>) -> bool {
    forall|i: int, l: int|
        0 <= i < a.len() && 0 <= l < a.len() ==> q_eq(
            #[trigger] q_dot(a[i], col_of(b, l)),
            if i == l {
                q_one()
            } else {
                q_zero()
            },
        )
}

/// `p` is `b` shifted by some noise of magnitude at most
/// `1000 / 2000000 = 1/2000`.
pub open spec fn entry_shifted(b: Rat, p: Rat) -> bool {
    exists|k: int| -1000 <= k <= 1000 && q_eq(p@, q_add(b@, Q { n: k, d: 2000000 }))
}

/// Introduction form of [`entry_shifted`], from an explicit witness.
pub proof fn lemma_entry_shifted(b: Rat, p: Rat, k: int)
    requires
        -1000 <= k <= 1000,
        q_eq(p@, q_add(b@, Q { n: k, d: 2000000 })),
    ensures
        entry_shifted(b, p),
{
    assert(-1000 <= k <= 1000 && q_eq(p@, q_add(b@, Q { n: k, d: 2000000 })));
}

/// Entry-wise, `p` is `base` shifted by noise of magnitude at most `1/2000`.
pub open spec fn perturbation_bounded(base: Seq<Seq<Rat>>, p: Seq<Seq<Rat>>) -> bool {
    &&& p.len() == base.len()
    &&& forall|i: int| 0 <= i < p.len() ==> (#[trigger] p[i]).len() == base.len()
    &&& forall|i: int, j: int|
        0 <= i < p.len() && 0 <= j < p.len() ==> entry_shifted(base[i][j], #[trigger] p[i][j])
}

/// `x` is a certified outcome of the damped near-inverse solve against
/// `base`: its residual is exactly one everywhere, either against `base`
/// itself or against some bounded perturbation of it.
pub open spec fn certified_solution(base: Seq<Seq<Rat>>, x: Seq<Rat>) -> bool {
    ||| residual_ones(base, x)
    ||| exists|p: Seq<Seq<Rat>>| perturbation_bounded(base, p) && #[trigger] residual_ones(p, x)
}

/// Introduction form of the perturbed case of [`certified_solution`].
pub proof fn lemma_certified_perturbed(base: Seq<Seq<Rat>>, p: Seq<Seq<Rat>>, x: Seq<Rat>)
    requires
        perturbation_bounded(base, p),
        residual_ones(p, x),
    ensures
        certified_solution(base, x),
{
    assert(perturbation_bounded(base, p) && residual_ones(p, x));
}

/// The damped operator minus the identity, entry by entry:
/// `(4*(c[i][j] - delta_ij*sb)) / (5*sb)`.
pub open spec fn dmi_spec(c: Seq<Seq<u32>>, sb: int) -> Seq<Seq<Rat>> {
    Seq::new(
        c.len(),
        |i: int|
            Seq::new(
                c.len(),
                |j: int|
                    Rat {
                        n: (4 * (c[i][j] - if i == j {
                            sb
                        } else {
                            0
                        })) as i64,
                        d: (5 * sb) as i64,
                    },
            ),
    )
}

/// A certified outcome of the damped near-inverse solve.
#[derive(Debug)]
pub enum Stationary {
    /// `x` solves `(damped - I) x = ones` exactly.
    Direct { x: Vec<Rat> },
    /// `x` solves `perturbed x = ones` exactly, for a perturbation of
    /// `damped - I` with entries shifted by at most `1/2000`.
    Perturbed { perturbed: Vec<Vec<Rat>>, x: Vec<Rat> },
}

/// Failure of the algebraic solver.
#[derive(Clone, Copy, Debug, PartialEq, Eq, Structural)]
pub enum SolveError {
    /// No perturbation within the retry budget produced an invertible
    /// system.
    Singular,
    /// Exact arithmetic left the 64-bit component range while certifying.
    Arithmetic,
}

/// Builds `damped - I` for a count matrix, exactly [`dmi_spec`].
pub fn dmi_of(c: &Vec<Vec<u32>>, sb: u32) -> (m: Vec<Vec<Rat>>)
    requires
        1 <= sb <= 65536,
        c@.len() <= 4096,
        forall|i: int| 0 <= i < c@.len() ==> (#[trigger] c@[i])@.len() == c@.len(),
        forall|i: int, j: int|
            0 <= i < c@.len() && 0 <= j < c@.len() ==> #[trigger] c@[i]@[j] <= 65536,
    ensures
        mat_view(m) == dmi_spec(c@.map_values(|r: Vec<u32>| r@), sb as int),
        mat_wf(mat_view(m), c@.len() as int),
{
    let n = c.len();
    let ghost cs = c@.map_values(|r: Vec<u32>| r@);
    let mut m: Vec<Vec<Rat>> = Vec::new();
    let mut i: usize = 0;
    while i < n
        invariant
            1 <= sb <= 65536,
            cs == c@.map_values(|r: Vec<u32>| r@),
            c@.len() == n,
            n <= 4096,
            forall|k: int| 0 <= k < n ==> (#[trigger] cs[k]).len() == n,
            forall|k: int| 0 <= k < n ==> (#[trigger] c@[k])@.len() == n,
            forall|k: int, j: int| 0 <= k < n && 0 <= j < n ==> #[trigger] cs[k][j] <= 65536,
            i <= n,
            m@.len() == i,
            forall|k: int| 0 <= k < i ==> (#[trigger] m@[k])@ == dmi_spec(cs, sb as int)[k],
        decreases n - i,
    {
        let mut row: Vec<Rat> = Vec::new();
        let mut j: usize = 0;
        while j < n
            invariant
                1 <= sb <= 65536,
                cs == c@.map_values(|r: Vec<u32>| r@),
                c@.len() == n,
                n <= 4096,
                i < n,
                forall|k: int| 0 <= k < n ==> (#[trigger] cs[k]).len() == n,
                forall|k: int| 0 <= k < n ==> (#[trigger] c@[k])@.len() == n,
                forall|k: int, j2: int| 0 <= k < n && 0 <= j2 < n ==> #[trigger] cs[k][j2] <= 65536,
                j <= n,
                row@.len() == j,
                forall|j2: int|
                    0 <= j2 < j ==> #[trigger] row@[j2] == dmi_spec(cs, sb as int)[i as int][j2],
            decreases n - j,
        {
            let d: i64 = 5 * (sb as i64);
            let base: i64 = if i == j {
                (c[i][j] as i64) - (sb as i64)
            } else {
                c[i][j] as i64
            };
            let e = Rat { n: 4 * base, d };
            proof {
                assert(e == dmi_spec(cs, sb as int)[i as int][j as int]);
            }
            row.push(e);
            j = j + 1;
        }
        proof {
            assert(row@ =~= dmi_spec(cs, sb as int)[i as int]);
        }
        m.push(row);
        i = i + 1;
    }
    proof {
        assert(mat_view(m) =~= dmi_spec(cs, sb as int));
        assert forall|a: int, b: int|
            0 <= a < n && 0 <= b < n implies (#[trigger] mat_view(m)[a][b]).wf() by {
            assert(mat_view(m)[a][b] == dmi_spec(cs, sb as int)[a][b]);
        }
    }
    m
}

/// Sum of a dot product of well-formed entries is well-formed.
pub proof fn lemma_q_dot_wf(row: Seq<Rat>, x: Seq<Rat>)
    requires
        vec_wf(row),
        vec_wf(x),
    ensures
        q_wf(q_dot(row, x)),
    decreases row.len(),
{
    if row.len() == 0 || x.len() == 0 {
    } else {
        lemma_q_dot_wf(row.drop_last(), x.drop_last());
        lemma_q_mul_wf(row.last()@, x.last()@);
        lemma_q_add_wf(q_dot(row.drop_last(), x.drop_last()), q_mul(row.last()@, x.last()@));
    }
}

/// The exact-arithmetic dot product of entries `j..` accumulated onto
/// `acc`; `None` at the first component overflow.
pub open spec fn dot_acc(row: Seq<Rat>, x: Seq<Rat>, j: int, acc: Rat) -> Option<Rat>
    decreases row.len() - j,
{
    if j >= row.len() {
        Some(acc)
    } else {
        match rat_mul_spec(row[j], x[j]) {
            Some(t) => match rat_add_spec(acc, t) {
                Some(a2) => dot_acc(row, x, j + 1, a2),
                None => None,
            },
            None => None,
        }
    }
}

/// The exact result of [`check_residual`], from row `i` on: every dot
/// product computes without overflow and equals one.
pub open spec fn residual_check_spec(a: Seq<Seq<Rat>>, x: Seq<Rat>, i: int) -> bool
    decreases a.len() - i,
{
    if i >= a.len() {
        true
    } else {
        match dot_acc(a[i], x, 0, Rat { n: 0, d: 1 }) {
            Some(acc) => q_eq(acc@, q_one()) && residual_check_spec(a, x, i + 1),
            None => false,
        }
    }
}

/// Checks, exactly, that `a * x` is the all-ones vector, and is itself
/// pinned by [`residual_check_spec`].  A `true` answer certifies the
/// property; `false` means some dot product overflowed a 64-bit component
/// or missed one.
pub fn check_residual(a: &Vec<Vec<Rat>>, x: &Vec<Rat>) -> (r: bool)
    requires
        mat_wf(mat_view(*a), a@.len() as int),
        vec_wf(x@),
        x@.len() == a@.len(),
    ensures
        r == residual_check_spec(mat_view(*a), x@, 0),
        r ==> residual_ones(mat_view(*a), x@),
{
    let n = a.len();
    let ghost av = mat_view(*a);
    let one = Rat::one();
    let mut i: usize = 0;
    while i < n
        invariant
            mat_wf(av, n as int),
            av == mat_view(*a),
            a@.len() == n,
            x@.len() == n,
            vec_wf(x@),
            one.wf(),
            one@ == q_one(),
            i <= n,
            residual_check_spec(av, x@, 0) == residual_check_spec(av, x@, i as int),
            forall|k: int| 0 <= k < i ==> q_eq(#[trigger] q_dot(av[k], x@), q_one()),
        decreases n - i,
    {
        let mut acc = Rat::zero();
        let mut j: usize = 0;
        proof {
            assert(av[i as int].take(0) =~= Seq::<Rat>::empty());
            assert(x@.take(0) =~= Seq::<Rat>::empty());
        }
        while j < n
            invariant
                mat_wf(av, n as int),
                av == mat_view(*a),
                a@.len() == n,
                x@.len() == n,
                vec_wf(x@),
                i < n,
                j <= n,
                acc.wf(),
                residual_check_spec(av, x@, 0) == residual_check_spec(av, x@, i as int),
                dot_acc(av[i as int], x@, 0, Rat { n: 0, d: 1 }) == dot_acc(
                    av[i as int],
                    x@,
                    j as int,
                    acc,
                ),
                q_eq(acc@, q_dot(av[i as int].take(j as int), x@.take(j as int))),
            decreases n - j,
        {
            let ghost pre = q_dot(av[i as int].take(j as int), x@.take(j as int));
            proof {
                assert(av[i as int][j as int] == a@[i as int]@[j as int]);
            }
            let t = match rat_mul(&a[i][j], &x[j]) {
                Some(t) => t,
                None => {
                    proof {
                        assert(dot_acc(av[i as int], x@, j as int, acc) is None);
                        assert(residual_check_spec(av, x@, i as int) == false);
                    }
                    return false;
                },
            };
            let acc2 = match rat_add(&acc, &t) {
                Some(s) => s,
                None => {
                    proof {
                        assert(dot_acc(av[i as int], x@, j as int, acc) is None);
                        assert(residual_check_spec(av, x@, i as int) == false);
                    }
                    return false;
                },
            };
            proof {
                let rowt = av[i as int].take(j + 1);
                let xt = x@.take(j + 1);
                assert(rowt.drop_last() =~= av[i as int].take(j as int));
                assert(xt.drop_last() =~= x@.take(j as int));
                assert(rowt.last() == av[i as int][j as int]);
                assert(xt.last() == x@[j as int]);
                assert(av[i as int][j as int] == a@[i as int]@[j as int]);
                lemma_q_dot_wf(av[i as int].take(j as int), x@.take(j as int));
                lemma_q_mul_wf(av[i as int][j as int]@, x@[j as int]@);
                lemma_q_eq_refl(q_mul(av[i as int][j as int]@, x@[j as int]@));
                lemma_q_add_congr(
                    acc@,
                    pre,
                    t@,
                    q_mul(av[i as int][j as int]@, x@[j as int]@),
                );
                lemma_q_add_wf(acc@, t@);
                lemma_q_add_wf(pre, q_mul(av[i as int][j as int]@, x@[j as int]@));
                lemma_q_eq_trans(
                    acc2@,
                    q_add(acc@, t@),
                    q_add(pre, q_mul(av[i as int][j as int]@, x@[j as int]@)),
                );
            }
            acc = acc2;
            j = j + 1;
        }
        proof {
            assert(av[i as int].take(n as int) =~= av[i as int]);
            assert(x@.take(n as int) =~= x@);
            assert(dot_acc(av[i as int], x@, 0, Rat { n: 0, d: 1 }) == Some(acc));
        }
        if !rat_eq(&acc, &one) {
            proof {
                assert(residual_check_spec(av, x@, i as int) == false);
            }
            return false;
        }
        proof {
            assert(residual_check_spec(av, x@, i as int) == residual_check_spec(
                av,
                x@,
                i + 1,
            ));
            lemma_q_dot_wf(av[i as int], x@);
            lemma_q_eq_sym(acc@, q_dot(av[i as int], x@));
            lemma_q_eq_trans(q_dot(av[i as int], x@), acc@, q_one());
        }
        i = i + 1;
    }
    true
}

fn copy_row(v: &Vec<Rat>) -> (r: Vec<Rat>)
    ensures
        r@ == v@,
{
    let mut r: Vec<Rat> = Vec::new();
    let mut i: usize = 0;
    while i < v.len()
        invariant
            i <= v@.len(),
            r@ == v@.take(i as int),
        decreases v@.len() - i,
    {
        r.push(v[i]);
        proof {
            assert(v@.take(i + 1) =~= v@.take(i as int).push(v@[i as int]));
        }
        i = i + 1;
    }
    proof {
        assert(v@.take(v@.len() as int) =~= v@);
    }
    r
}

/// Well-formedness of an executable square matrix, stated directly.
pub open spec fn mwf(m: Vec<Vec<Rat>>, n: int) -> bool {
    &&& m@.len() == n
    &&& forall|i: int| 0 <= i < n ==> (#[trigger] m@[i])@.len() == n
    &&& forall|i: int, j: int| 0 <= i < n && 0 <= j < n ==> (#[trigger] m@[i]@[j]).wf()
}

/// The two well-formedness views agree.
pub proof fn lemma_mwf_view(m: Vec<Vec<Rat>>, n: int)
    requires
        mwf(m, n),
    ensures
        mat_wf(mat_view(m), n),
{
    assert forall|i: int, j: int| 0 <= i < n && 0 <= j < n implies (#[trigger] mat_view(m)[i][j]).wf() by {
        assert(mat_view(m)[i] == m@[i]@);
    }
}

/// A row of well-formed entries.
pub open spec fn rwf(v: Vec<Rat>) -> bool {
    forall|i: int| 0 <= i < v@.len() ==> (#[trigger] v@[i]).wf()
}

/// The identity matrix of side `n`.
pub open spec fn identity_spec(n: nat) -> Seq<Seq<Rat>> {
    Seq::new(
        n,
        |i: int|
            Seq::new(
                n,
                |j: int|
                    if i == j {
                        Rat { n: 1, d: 1 }
                    } else {
                        Rat { n: 0, d: 1 }
                    },
            ),
    )
}

/// The identity matrix, exactly [`identity_spec`].
fn identity_mat(n: usize) -> (m: Vec<Vec<Rat>>)
    ensures
        mat_view(m) == identity_spec(n as nat),
        mwf(m, n as int),
{
    let mut m: Vec<Vec<Rat>> = Vec::new();
    let mut i: usize = 0;
    while i < n
        invariant
            i <= n,
            m@.len() == i,
            forall|k: int| 0 <= k < i ==> (#[trigger] m@[k])@ == identity_spec(n as nat)[k],
        decreases n - i,
    {
        let mut row: Vec<Rat> = Vec::new();
        let mut j: usize = 0;
        while j < n
            invariant
                i < n,
                j <= n,
                row@.len() == j,
                forall|k: int| 0 <= k < j ==> #[trigger] row@[k] == identity_spec(n as nat)[
                    i as int
                ][k],
            decreases n - j,
        {
            if i == j {
                row.push(Rat { n: 1, d: 1 });
            } else {
                row.push(Rat { n: 0, d: 1 });
            }
            j = j + 1;
        }
        proof {
            assert(row@ =~= identity_spec(n as nat)[i as int]);
        }
        m.push(row);
        i = i + 1;
    }
    proof {
        assert(mat_view(m) =~= identity_spec(n as nat));
        assert forall|a: int, b: int| 0 <= a < n && 0 <= b < n implies (
        #[trigger] m@[a]@[b]).wf() by {
            assert(m@[a]@ == identity_spec(n as nat)[a]);
        }
    }
    m
}

/// Entries `j..` of `row` scaled by `f` and appended to `acc`; `None` at
/// the first component overflow: the work [`scale_row`] has left to do.
pub open spec fn scale_acc(row: Seq<Rat>, f: Rat, j: int, acc: Seq<Rat>) -> Option<Seq<Rat>>
    decreases row.len() - j,
{
    if j >= row.len() {
        Some(acc)
    } else {
        match rat_mul_spec(row[j], f) {
            Some(e) => scale_acc(row, f, j + 1, acc.push(e)),
            None => None,
        }
    }
}

/// Entries `j..` of `row - f * prow` appended to `acc`; `None` at the
/// first component overflow: the work [`sub_scaled`] has left to do.
pub open spec fn sub2_acc(row: Seq<Rat>, prow: Seq<Rat>, f: Rat, j: int, acc: Seq<Rat>) -> Option<
    Seq<Rat>,
>
    decreases row.len() - j,
{
    if j >= row.len() {
        Some(acc)
    } else {
        match rat_mul_spec(f, prow[j]) {
            Some(t) => match rat_sub_spec(row[j], t) {
                Some(e) => sub2_acc(row, prow, f, j + 1, acc.push(e)),
                None => None,
            },
            None => None,
        }
    }
}

/// Multiplies every entry of a row by `f`, exactly [`scale_acc`].
fn scale_row(row: &Vec<Rat>, f: &Rat) -> (r: Option<Vec<Rat>>)
    requires
        rwf(*row),
        f.wf(),
    ensures
        (r is Some) == (scale_acc(row@, *f, 0, Seq::<Rat>::empty()) is Some),
        r matches Some(v) ==> v@ == scale_acc(row@, *f, 0, Seq::<Rat>::empty())->0 && v@.len()
            == row@.len() && rwf(v),
{
    let mut out: Vec<Rat> = Vec::new();
    let mut j: usize = 0;
    while j < row.len()
        invariant
            rwf(*row),
            f.wf(),
            j <= row@.len(),
            out@.len() == j,
            forall|k: int| 0 <= k < j ==> (#[trigger] out@[k]).wf(),
            scale_acc(row@, *f, 0, Seq::<Rat>::empty()) == scale_acc(row@, *f, j as int, out@),
        decreases row@.len() - j,
    {
        match rat_mul(&row[j], f) {
            Some(e) => out.push(e),
            None => {
                return None;
            },
        }
        j = j + 1;
    }
    Some(out)
}

/// Computes `row - f * prow` entry by entry, exactly [`sub2_acc`].
fn sub_scaled(row: &Vec<Rat>, prow: &Vec<Rat>, f: &Rat) -> (r: Option<Vec<Rat>>)
    requires
        rwf(*row),
        rwf(*prow),
        row@.len() == prow@.len(),
        f.wf(),
    ensures
        (r is Some) == (sub2_acc(row@, prow@, *f, 0, Seq::<Rat>::empty()) is Some),
        r matches Some(v) ==> v@ == sub2_acc(row@, prow@, *f, 0, Seq::<Rat>::empty())->0
            && v@.len() == row@.len() && rwf(v),
{
    let mut out: Vec<Rat> = Vec::new();
    let mut j: usize = 0;
    while j < row.len()
        invariant
            rwf(*row),
            rwf(*prow),
            row@.len() == prow@.len(),
            f.wf(),
            j <= row@.len(),
            out@.len() == j,
            forall|k: int| 0 <= k < j ==> (#[trigger] out@[k]).wf(),
            sub2_acc(row@, prow@, *f, 0, Seq::<Rat>::empty()) == sub2_acc(
                row@,
                prow@,
                *f,
                j as int,
                out@,
            ),
        decreases row@.len() - j,
    {
        let t = match rat_mul(f, &prow[j]) {
            Some(t) => t,
            None => {
                return None;
            },
        };
        match rat_sub(&row[j], &t) {
            Some(e) => out.push(e),
            None => {
                return None;
            },
        }
        j = j + 1;
    }
    Some(out)
}

/// The first row at or below `from` with a non-zero entry in `col`.
pub open spec fn find_pivot(w: Seq<Seq<Rat>>, col: int, from: int) -> Option<int>
    decreases w.len() - from,
{
    if from >= w.len() {
        None
    } else if w[from][col].n != 0 {
        Some(from)
    } else {
        find_pivot(w, col, from + 1)
    }
}

/// Eliminates column `col` from every row `r..` other than the pivot row:
/// the remaining work of one elimination pass.
pub open spec fn elim_rows(w: Seq<Seq<Rat>>, v: Seq<Seq<Rat>>, col: int, r: int, n: int) -> Option<
    (Seq<Seq<Rat>>, Seq<Seq<Rat>>),
>
    decreases n - r,
{
    if r >= n {
        Some((w, v))
    } else if r == col || w[r][col].n == 0 {
        elim_rows(w, v, col, r + 1, n)
    } else {
        let f = w[r][col];
        match sub2_acc(w[r], w[col], f, 0, Seq::<Rat>::empty()) {
            Some(wr) => match sub2_acc(v[r], v[col], f, 0, Seq::<Rat>::empty()) {
                Some(vr) => elim_rows(w.update(r, wr), v.update(r, vr), col, r + 1, n),
                None => None,
            },
            None => None,
        }
    }
}

/// The columns `col..` of Gauss-Jordan elimination: pivot, swap, scale the
/// pivot row by the reciprocal, eliminate the column elsewhere, recurse.
pub open spec fn gj_cols(w: Seq<Seq<Rat>>, v: Seq<Seq<Rat>>, col: int, n: int) -> Option<Seq<Seq<Rat>>>
    decreases n - col,
{
    if col >= n {
        Some(v)
    } else {
        match find_pivot(w, col, col) {
            None => None,
            Some(piv) => {
                let w1 = if piv == col {
                    w
                } else {
                    w.update(piv, w[col]).update(col, w[piv])
                };
                let v1 = if piv == col {
                    v
                } else {
                    v.update(piv, v[col]).update(col, v[piv])
                };
                let pr = rat_recip_spec(w1[col][col]);
                match scale_acc(w1[col], pr, 0, Seq::<Rat>::empty()) {
                    None => None,
                    Some(wc) => match scale_acc(v1[col], pr, 0, Seq::<Rat>::empty()) {
                        None => None,
                        Some(vc) => match elim_rows(
                            w1.update(col, wc),
                            v1.update(col, vc),
                            col,
                            0,
                            n,
                        ) {
                            None => None,
                            Some(pair) => gj_cols(pair.0, pair.1, col + 1, n),
                        },
                    },
                }
            },
        }
    }
}

/// The exact result of [`invert`]: Gauss-Jordan elimination over exact
/// rationals, `None` on a singular matrix or a component overflow.
pub open spec fn invert_spec(a: Seq<Seq<Rat>>) -> Option<Seq<Seq<Rat>>> {
    gj_cols(a, identity_spec(a.len()), 0, a.len() as int)
}

/// Exact Gauss-Jordan inversion, pinned bit for bit by [`invert_spec`]:
/// `None` exactly when a pivot column at some stage is entirely zero (a
/// singular matrix) or when exact arithmetic leaves the 64-bit component
/// range; both count as inversion failure.  The result carries no
/// algebraic claim of its own: callers certify it against the identity or
/// against a residual.
pub fn invert(a: &Vec<Vec<Rat>>) -> (r: Option<Vec<Vec<Rat>>>)
    requires
        mwf(*a, a@.len() as int),
    ensures
        (r is Some) == (invert_spec(mat_view(*a)) is Some),
        r matches Some(b) ==> mwf(b, a@.len() as int) && mat_view(b) == invert_spec(
            mat_view(*a),
        )->0,
{
    let n = a.len();
    let ghost av = mat_view(*a);
    let mut work: Vec<Vec<Rat>> = Vec::new();
    let mut i: usize = 0;
    while i < n
        invariant
            mwf(*a, n as int),
            av == mat_view(*a),
            a@.len() == n,
            i <= n,
            work@.len() == i,
            forall|k: int| 0 <= k < i ==> (#[trigger] work@[k])@ == av[k],
        decreases n - i,
    {
        work.push(copy_row(&a[i]));
        proof {
            assert(av[i as int] == a@[i as int]@);
        }
        i = i + 1;
    }
    proof {
        assert(mat_view(work) =~= av);
        assert forall|k: int, l: int| 0 <= k < n && 0 <= l < n implies (
        #[trigger] work@[k]@[l]).wf() by {
            assert(work@[k]@ == av[k]);
        }
    }
    let mut inv: Vec<Vec<Rat>> = identity_mat(n);
    let mut col: usize = 0;
    while col < n
        invariant
            col <= n,
            a@.len() == n,
            av == mat_view(*a),
            mwf(work, n as int),
            mwf(inv, n as int),
            invert_spec(av) == gj_cols(mat_view(work), mat_view(inv), col as int, n as int),
        decreases n - col,
    {
        let ghost w0 = mat_view(work);
        let ghost v0 = mat_view(inv);
        // Find a row with a non-zero pivot in this column.
        let mut piv: usize = col;
        let mut found: bool = false;
        let mut p: usize = col;
        while p < n
            invariant
                col < n,
                col <= p <= n,
                mwf(work, n as int),
                w0 == mat_view(work),
                found ==> col <= piv < n && find_pivot(w0, col as int, col as int) == Some(
                    piv as int,
                ) && w0[piv as int][col as int].n != 0 && p == n,
                !found ==> find_pivot(w0, col as int, col as int) == find_pivot(
                    w0,
                    col as int,
                    p as int,
                ),
            decreases n - p,
        {
            if !work[p][col].is_zero() {
                proof {
                    assert(w0[p as int][col as int] == work@[p as int]@[col as int]);
                }
                piv = p;
                found = true;
                p = n;
            } else {
                proof {
                    assert(w0[p as int][col as int] == work@[p as int]@[col as int]);
                }
                p = p + 1;
            }
        }
        if !found {
            proof {
                assert(find_pivot(w0, col as int, col as int) is None);
            }
            return None;
        }
        let ghost w1 = if piv == col {
            w0
        } else {
            w0.update(piv as int, w0[col as int]).update(col as int, w0[piv as int])
        };
        let ghost v1 = if piv == col {
            v0
        } else {
            v0.update(piv as int, v0[col as int]).update(col as int, v0[piv as int])
        };
        if piv != col {
            let wp = copy_row(&work[piv]);
            let wc = copy_row(&work[col]);
            proof {
                assert(wp@ == w0[piv as int]);
                assert(wc@ == w0[col as int]);
            }
            work[piv] = wc;
            work[col] = wp;
            let ip = copy_row(&inv[piv]);
            let ic = copy_row(&inv[col]);
            proof {
                assert(ip@ == v0[piv as int]);
                assert(ic@ == v0[col as int]);
            }
            inv[piv] = ic;
            inv[col] = ip;
            proof {
                assert(mat_view(work) =~= w1);
                assert(mat_view(inv) =~= v1);
            }
        }
        proof {
            assert(mat_view(work) == w1);
            assert(mat_view(inv) == v1);
            assert(w1[col as int][col as int] == w0[piv as int][col as int]);
            assert(work@[col as int]@[col as int] == w1[col as int][col as int]);
            assert forall|k: int, l: int| 0 <= k < n && 0 <= l < n implies (
            #[trigger] work@[k]@[l]).wf() by {
                assert(work@[k]@ == w1[k]);
            }
            assert forall|k: int, l: int| 0 <= k < n && 0 <= l < n implies (
            #[trigger] inv@[k]@[l]).wf() by {
                assert(inv@[k]@ == v1[k]);
            }
        }
        let pivot = work[col][col];
        let pr = rat_recip(&pivot);
        let wrow = match scale_row(&work[col], &pr) {
            Some(v) => v,
            None => {
                proof {
                    assert(work@[col as int]@ == w1[col as int]);
                }
                return None;
            },
        };
        let irow = match scale_row(&inv[col], &pr) {
            Some(v) => v,
            None => {
                proof {
                    assert(work@[col as int]@ == w1[col as int]);
                    assert(inv@[col as int]@ == v1[col as int]);
                }
                return None;
            },
        };
        proof {
            assert(work@[col as int]@ == w1[col as int]);
            assert(inv@[col as int]@ == v1[col as int]);
        }
        work[col] = wrow;
        inv[col] = irow;
        let ghost w2 = w1.update(col as int, wrow@);
        let ghost v2 = v1.update(col as int, irow@);
        proof {
            assert(mat_view(work) =~= w2);
            assert(mat_view(inv) =~= v2);
            assert forall|k: int, l: int| 0 <= k < n && 0 <= l < n implies (
            #[trigger] work@[k]@[l]).wf() by {
                assert(work@[k]@ == w2[k]);
            }
            assert forall|k: int, l: int| 0 <= k < n && 0 <= l < n implies (
            #[trigger] inv@[k]@[l]).wf() by {
                assert(inv@[k]@ == v2[k]);
            }
        }
        proof {
            assert(invert_spec(av) == (match elim_rows(w2, v2, col as int, 0, n as int) {
                None => None,
                Some(pair) => gj_cols(pair.0, pair.1, col + 1, n as int),
            }));
        }
        let mut r: usize = 0;
        while r < n
            invariant
                col < n,
                r <= n,
                n == a@.len(),
                av == mat_view(*a),
                mwf(work, n as int),
                mwf(inv, n as int),
                elim_rows(w2, v2, col as int, 0, n as int) == elim_rows(
                    mat_view(work),
                    mat_view(inv),
                    col as int,
                    r as int,
                    n as int,
                ),
                invert_spec(av) == (match elim_rows(w2, v2, col as int, 0, n as int) {
                    None => None,
                    Some(pair) => gj_cols(pair.0, pair.1, col + 1, n as int),
                }),
            decreases n - r,
        {
            let ghost we = mat_view(work);
            let ghost ve = mat_view(inv);
            if r != col {
                let f = work[r][col];
                proof {
                    assert(we[r as int][col as int] == work@[r as int]@[col as int]);
                }
                if f.n != 0 {
                    let wp = copy_row(&work[col]);
                    let ip = copy_row(&inv[col]);
                    proof {
                        assert(wp@ == we[col as int]);
                        assert(ip@ == ve[col as int]);
                        assert(work@[r as int]@ == we[r as int]);
                        assert(inv@[r as int]@ == ve[r as int]);
                    }
                    let wr = match sub_scaled(&work[r], &wp, &f) {
                        Some(v) => v,
                        None => {
                            proof {
                                assert(elim_rows(we, ve, col as int, r as int, n as int) is None);
                                assert(invert_spec(av) is None);
                            }
                            return None;
                        },
                    };
                    let ir = match sub_scaled(&inv[r], &ip, &f) {
                        Some(v) => v,
                        None => {
                            proof {
                                assert(elim_rows(we, ve, col as int, r as int, n as int) is None);
                                assert(invert_spec(av) is None);
                            }
                            return None;
                        },
                    };
                    work[r] = wr;
                    inv[r] = ir;
                    proof {
                        assert(mat_view(work) =~= we.update(r as int, wr@));
                        assert(mat_view(inv) =~= ve.update(r as int, ir@));
                        assert forall|k: int, l: int| 0 <= k < n && 0 <= l < n implies (
                        #[trigger] work@[k]@[l]).wf() by {
                            assert(work@[k]@ == we.update(r as int, wr@)[k]);
                        }
                        assert forall|k: int, l: int| 0 <= k < n && 0 <= l < n implies (
                        #[trigger] inv@[k]@[l]).wf() by {
                            assert(inv@[k]@ == ve.update(r as int, ir@)[k]);
                        }
                    }
                }
            }
            r = r + 1;
        }
        col = col + 1;
    }
    proof {
        assert(invert_spec(av) == Some(mat_view(inv)));
    }
    Some(inv)
}

/// Summing the entries `j..` of a row onto `acc`; `None` at the first
/// component overflow.
pub open spec fn row_sum_acc(row: Seq<Rat>, j: int, acc: Rat) -> Option<Rat>
    decreases row.len() - j,
{
    if j >= row.len() {
        Some(acc)
    } else {
        match rat_add_spec(acc, row[j]) {
            Some(a2) => row_sum_acc(row, j + 1, a2),
            None => None,
        }
    }
}

/// The exact result of [`mat_vec_ones`]: the row sums of rows `i..`
/// appended to `acc`.
pub open spec fn ones_mul_spec(m: Seq<Seq<Rat>>, i: int, acc: Seq<Rat>) -> Option<Seq<Rat>>
    decreases m.len() - i,
{
    if i >= m.len() {
        Some(acc)
    } else {
        match row_sum_acc(m[i], 0, Rat { n: 0, d: 1 }) {
            Some(srow) => ones_mul_spec(m, i + 1, acc.push(srow)),
            None => None,
        }
    }
}

/// Sum of each row: the product of a matrix with the all-ones vector,
/// exactly [`ones_mul_spec`]; `None` on component overflow.
pub fn mat_vec_ones(m: &Vec<Vec<Rat>>) -> (r: Option<Vec<Rat>>)
    requires
        mwf(*m, m@.len() as int),
    ensures
        (r is Some) == (ones_mul_spec(mat_view(*m), 0, Seq::<Rat>::empty()) is Some),
        r matches Some(x) ==> x@ == ones_mul_spec(mat_view(*m), 0, Seq::<Rat>::empty())->0
            && x@.len() == m@.len() && vec_wf(x@),
{
    let n = m.len();
    let ghost mv = mat_view(*m);
    let mut x: Vec<Rat> = Vec::new();
    let mut i: usize = 0;
    while i < n
        invariant
            mwf(*m, n as int),
            mv == mat_view(*m),
            m@.len() == n,
            i <= n,
            x@.len() == i,
            forall|k: int| 0 <= k < i ==> (#[trigger] x@[k]).wf(),
            ones_mul_spec(mv, 0, Seq::<Rat>::empty()) == ones_mul_spec(mv, i as int, x@),
        decreases n - i,
    {
        let mut acc = Rat::zero();
        let mut j: usize = 0;
        proof {
            assert(mv[i as int] == m@[i as int]@);
        }
        while j < n
            invariant
                mwf(*m, n as int),
                mv == mat_view(*m),
                m@.len() == n,
                i < n,
                j <= n,
                acc.wf(),
                mv[i as int] == m@[i as int]@,
                x@.len() == i,
                ones_mul_spec(mv, 0, Seq::<Rat>::empty()) == ones_mul_spec(mv, i as int, x@),
                row_sum_acc(mv[i as int], 0, Rat { n: 0, d: 1 }) == row_sum_acc(
                    mv[i as int],
                    j as int,
                    acc,
                ),
            decreases n - j,
        {
            acc = match rat_add(&acc, &m[i][j]) {
                Some(s) => s,
                None => {
                    proof {
                        assert(row_sum_acc(mv[i as int], j as int, acc) is None);
                        assert(ones_mul_spec(mv, i as int, x@) is None);
                        assert(ones_mul_spec(mv, 0, Seq::<Rat>::empty()) is None);
                    }
                    return None;
                },
            };
            j = j + 1;
        }
        proof {
            assert(row_sum_acc(mv[i as int], 0, Rat { n: 0, d: 1 }) == Some(acc));
        }
        x.push(acc);
        i = i + 1;
    }
    Some(x)
}

/// The dot product of row `i` of `a` with column `l` of `b`, entries
/// `j..` onto `acc`; `None` at the first component overflow.
pub open spec fn pdot_acc(a: Seq<Seq<Rat>>, b: Seq<Seq<Rat>>, i: int, l: int, j: int, acc: Rat) -> Option<
    Rat,
>
    decreases a.len() - j,
{
    if j >= a.len() {
        Some(acc)
    } else {
        match rat_mul_spec(a[i][j], b[j][l]) {
            Some(t) => match rat_add_spec(acc, t) {
                Some(a2) => pdot_acc(a, b, i, l, j + 1, a2),
                None => None,
            },
            None => None,
        }
    }
}

/// Row `i` of the product check from column `l` on: every dot computes
/// without overflow and matches the identity entry.
pub open spec fn product_check_cols(a: Seq<Seq<Rat>>, b: Seq<Seq<Rat>>, i: int, l: int) -> bool
    decreases a.len() - l,
{
    if l >= a.len() {
        true
    } else {
        match pdot_acc(a, b, i, l, 0, Rat { n: 0, d: 1 }) {
            Some(acc) => q_eq(
                acc@,
                if i == l {
                    q_one()
                } else {
                    q_zero()
                },
            ) && product_check_cols(a, b, i, l + 1),
            None => false,
        }
    }
}

/// The exact result of [`check_product_identity`], from row `i` on.
pub open spec fn product_check_spec(a: Seq<Seq<Rat>>, b: Seq<Seq<Rat>>, i: int) -> bool
    decreases a.len() - i,
{
    if i >= a.len() {
        true
    } else {
        product_check_cols(a, b, i, 0) && product_check_spec(a, b, i + 1)
    }
}

/// Checks, exactly, that `a * b` is the identity matrix, and is itself
/// pinned by [`product_check_spec`].  A `true` answer certifies the
/// property.
pub fn check_product_identity(a: &Vec<Vec<Rat>>, b: &Vec<Vec<Rat>>) -> (r: bool)
    requires
        mwf(*a, a@.len() as int),
        mwf(*b, a@.len() as int),
    ensures
        r == product_check_spec(mat_view(*a), mat_view(*b), 0),
        r ==> product_identity(mat_view(*a), mat_view(*b)),
{
    let n = a.len();
    let ghost av = mat_view(*a);
    let ghost bv = mat_view(*b);
    proof {
        lemma_mwf_view(*a, n as int);
        lemma_mwf_view(*b, n as int);
    }
    let one = Rat::one();
    let zero = Rat::zero();
    let mut i: usize = 0;
    while i < n
        invariant
            mwf(*a, n as int),
            mwf(*b, n as int),
            mat_wf(av, n as int),
            mat_wf(bv, n as int),
            av == mat_view(*a),
            bv == mat_view(*b),
            a@.len() == n,
            one.wf(),
            one@ == q_one(),
            zero.wf(),
            zero@ == q_zero(),
            i <= n,
            product_check_spec(av, bv, 0) == product_check_spec(av, bv, i as int),
            forall|k: int, l: int|
                0 <= k < i && 0 <= l < n ==> q_eq(
                    #[trigger] q_dot(av[k], col_of(bv, l)),
                    if k == l {
                        q_one()
                    } else {
                        q_zero()
                    },
                ),
        decreases n - i,
    {
        let mut l: usize = 0;
        while l < n
            invariant
                mwf(*a, n as int),
                mwf(*b, n as int),
                mat_wf(av, n as int),
                mat_wf(bv, n as int),
                av == mat_view(*a),
                bv == mat_view(*b),
                a@.len() == n,
                one.wf(),
                one@ == q_one(),
                zero.wf(),
                zero@ == q_zero(),
                i < n,
                l <= n,
                product_check_spec(av, bv, 0) == product_check_spec(av, bv, i as int),
                product_check_cols(av, bv, i as int, 0) == product_check_cols(
                    av,
                    bv,
                    i as int,
                    l as int,
                ),
                forall|l2: int|
                    0 <= l2 < l ==> q_eq(
                        #[trigger] q_dot(av[i as int], col_of(bv, l2)),
                        if i as int == l2 {
                            q_one()
                        } else {
                            q_zero()
                        },
                    ),
            decreases n - l,
        {
            let ghost cl = col_of(bv, l as int);
            proof {
                assert(cl.len() == n);
                assert forall|k: int| 0 <= k < n implies (#[trigger] cl[k]).wf() by {
                    assert(cl[k] == bv[k][l as int]);
                }
            }
            let mut acc = Rat::zero();
            let mut j: usize = 0;
            proof {
                assert(av[i as int].take(0) =~= Seq::<Rat>::empty());
                assert(cl.take(0) =~= Seq::<Rat>::empty());
            }
            while j < n
                invariant
                    mwf(*a, n as int),
                    mwf(*b, n as int),
                    mat_wf(av, n as int),
                    mat_wf(bv, n as int),
                    av == mat_view(*a),
                    bv == mat_view(*b),
                    a@.len() == n,
                    i < n,
                    l < n,
                    j <= n,
                    cl == col_of(bv, l as int),
                    cl.len() == n,
                    vec_wf(cl),
                    acc.wf(),
                    product_check_spec(av, bv, 0) == product_check_spec(av, bv, i as int),
                    product_check_cols(av, bv, i as int, 0) == product_check_cols(
                        av,
                        bv,
                        i as int,
                        l as int,
                    ),
                    pdot_acc(av, bv, i as int, l as int, 0, Rat { n: 0, d: 1 }) == pdot_acc(
                        av,
                        bv,
                        i as int,
                        l as int,
                        j as int,
                        acc,
                    ),
                    q_eq(acc@, q_dot(av[i as int].take(j as int), cl.take(j as int))),
                decreases n - j,
            {
                let ghost pre = q_dot(av[i as int].take(j as int), cl.take(j as int));
                proof {
                    assert(av[i as int][j as int] == a@[i as int]@[j as int]);
                    assert(bv[j as int][l as int] == b@[j as int]@[l as int]);
                }
                let t = match rat_mul(&a[i][j], &b[j][l]) {
                    Some(t) => t,
                    None => {
                        proof {
                            assert(pdot_acc(av, bv, i as int, l as int, j as int, acc) is None);
                            assert(product_check_cols(av, bv, i as int, l as int) == false);
                            assert(product_check_spec(av, bv, i as int) == false);
                        }
                        return false;
                    },
                };
                let acc2 = match rat_add(&acc, &t) {
                    Some(s) => s,
                    None => {
                        proof {
                            assert(pdot_acc(av, bv, i as int, l as int, j as int, acc) is None);
                            assert(product_check_cols(av, bv, i as int, l as int) == false);
                            assert(product_check_spec(av, bv, i as int) == false);
                        }
                        return false;
                    },
                };
                proof {
                    let rowt = av[i as int].take(j + 1);
                    let ct = cl.take(j + 1);
                    assert(rowt.drop_last() =~= av[i as int].take(j as int));
                    assert(ct.drop_last() =~= cl.take(j as int));
                    assert(rowt.last() == av[i as int][j as int]);
                    assert(ct.last() == cl[j as int]);
                    assert(cl[j as int] == bv[j as int][l as int]);
                    assert(av[i as int][j as int] == a@[i as int]@[j as int]);
                    assert(bv[j as int][l as int] == b@[j as int]@[l as int]);
                    lemma_q_dot_wf(av[i as int].take(j as int), cl.take(j as int));
                    lemma_q_mul_wf(av[i as int][j as int]@, cl[j as int]@);
                    lemma_q_eq_refl(q_mul(av[i as int][j as int]@, cl[j as int]@));
                    lemma_q_add_congr(acc@, pre, t@, q_mul(av[i as int][j as int]@, cl[j as int]@));
                    lemma_q_add_wf(acc@, t@);
                    lemma_q_add_wf(pre, q_mul(av[i as int][j as int]@, cl[j as int]@));
                    lemma_q_eq_trans(
                        acc2@,
                        q_add(acc@, t@),
                        q_add(pre, q_mul(av[i as int][j as int]@, cl[j as int]@)),
                    );
                }
                acc = acc2;
                j = j + 1;
            }
            proof {
                assert(av[i as int].take(n as int) =~= av[i as int]);
                assert(cl.take(n as int) =~= cl);
                assert(pdot_acc(av, bv, i as int, l as int, 0, Rat { n: 0, d: 1 }) == Some(acc));
            }
            let expected = if i == l {
                one
            } else {
                zero
            };
            if !rat_eq(&acc, &expected) {
                proof {
                    assert(product_check_cols(av, bv, i as int, l as int) == false);
                    assert(product_check_spec(av, bv, i as int) == false);
                }
                return false;
            }
            proof {
                assert(product_check_cols(av, bv, i as int, l as int) == product_check_cols(
                    av,
                    bv,
                    i as int,
                    l + 1,
                ));
                lemma_q_dot_wf(av[i as int], cl);
                lemma_q_eq_sym(acc@, q_dot(av[i as int], cl));
                lemma_q_eq_trans(q_dot(av[i as int], cl), acc@, expected@);
            }
            l = l + 1;
        }
        proof {
            assert(product_check_cols(av, bv, i as int, 0) == true);
            assert(product_check_spec(av, bv, i as int) == product_check_spec(av, bv, i + 1));
        }
        i = i + 1;
    }
    true
}

/// A raw noise value clamped into `[-1000, 1000]`.
pub open spec fn clamp_noise(v: i64) -> int {
    if v < -1000 {
        -1000
    } else if v > 1000 {
        1000
    } else {
        v as int
    }
}

/// The clamped noise value applied to entry `(i, j)` on attempt `attempt`:
/// each attempt shifts the read window by one, so distinct attempts read
/// distinct windows of any stream longer than one entry.
pub open spec fn noise_at(noise: Seq<i64>, attempt: int, n: int, i: int, j: int) -> int {
    clamp_noise(noise[(attempt + i * n + j) % (noise.len() as int)])
}

/// Entries `j..` of row `i` of the perturbed matrix appended to `acc`;
/// `None` at the first component overflow.
pub open spec fn perturb_row_acc(
    base: Seq<Seq<Rat>>,
    noise: Seq<i64>,
    attempt: int,
    n: int,
    i: int,
    j: int,
    acc: Seq<Rat>,
) -> Option<Seq<Rat>>
    decreases n - j,
{
    if j >= n {
        Some(acc)
    } else {
        match rat_add_spec(
            base[i][j],
            Rat { n: noise_at(noise, attempt, n, i, j) as i64, d: 2000000 },
        ) {
            Some(e) => perturb_row_acc(base, noise, attempt, n, i, j + 1, acc.push(e)),
            None => None,
        }
    }
}

/// The exact result of [`perturb`]: rows `i..` appended to `acc`.
pub open spec fn perturb_spec(
    base: Seq<Seq<Rat>>,
    noise: Seq<i64>,
    attempt: int,
    n: int,
    i: int,
    acc: Seq<Seq<Rat>>,
) -> Option<Seq<Seq<Rat>>>
    decreases n - i,
{
    if i >= n {
        Some(acc)
    } else {
        match perturb_row_acc(base, noise, attempt, n, i, 0, Seq::<Rat>::empty()) {
            Some(row) => perturb_spec(base, noise, attempt, n, i + 1, acc.push(row)),
            None => None,
        }
    }
}

/// Adds caller-supplied noise, clamped to `[-1000, 1000]` parts in
/// `2000000` (that is, to `[-1/2000, 1/2000]`), to every entry of `base`,
/// exactly [`perturb_spec`]: entry `(i, j)` of attempt `attempt` is shifted
/// by `noise_at(noise, attempt, n, i, j) / 2000000`.  `None` on component
/// overflow.
fn perturb(base: &Vec<Vec<Rat>>, noise: &Vec<i64>, attempt: usize) -> (r: Option<Vec<Vec<Rat>>>)
    requires
        mwf(*base, base@.len() as int),
        base@.len() <= 4096,
        noise@.len() >= 1,
    ensures
        (r is Some) == (perturb_spec(
            mat_view(*base),
            noise@,
            attempt as int,
            base@.len() as int,
            0,
            Seq::<Seq<Rat>>::empty(),
        ) is Some),
        r matches Some(p) ==> mat_view(p) == perturb_spec(
            mat_view(*base),
            noise@,
            attempt as int,
            base@.len() as int,
            0,
            Seq::<Seq<Rat>>::empty(),
        )->0 && mwf(p, base@.len() as int) && perturbation_bounded(mat_view(*base), mat_view(p)),
{
    let n = base.len();
    let ghost basev = mat_view(*base);
    proof {
        lemma_mwf_view(*base, n as int);
    }
    let mut p: Vec<Vec<Rat>> = Vec::new();
    let ghost mut wss: Seq<Seq<int>> = Seq::empty();
    proof {
        assert(mat_view(p) =~= Seq::<Seq<Rat>>::empty());
    }
    let mut i: usize = 0;
    while i < n
        invariant
            mwf(*base, n as int),
            basev == mat_view(*base),
            base@.len() == n,
            n <= 4096,
            noise@.len() >= 1,
            i <= n,
            p@.len() == i,
            wss.len() == i,
            perturb_spec(basev, noise@, attempt as int, n as int, 0, Seq::<Seq<Rat>>::empty())
                == perturb_spec(basev, noise@, attempt as int, n as int, i as int, mat_view(p)),
            mat_view(p).len() == i,
            forall|k: int| 0 <= k < i ==> (#[trigger] p@[k])@.len() == n,
            forall|k: int| 0 <= k < i ==> (#[trigger] wss[k]).len() == n,
            forall|k: int, j: int| 0 <= k < i && 0 <= j < n ==> (#[trigger] p@[k]@[j]).wf(),
            forall|k: int, j: int|
                0 <= k < i && 0 <= j < n ==> -1000 <= #[trigger] wss[k][j] <= 1000 && q_eq(
                    (p@[k]@[j])@,
                    q_add(basev[k][j]@, Q { n: wss[k][j], d: 2000000 }),
                ),
        decreases n - i,
    {
        let mut row: Vec<Rat> = Vec::new();
        let ghost mut ws: Seq<int> = Seq::empty();
        let mut j: usize = 0;
        while j < n
            invariant
                mwf(*base, n as int),
                basev == mat_view(*base),
                base@.len() == n,
                n <= 4096,
                noise@.len() >= 1,
                i < n,
                j <= n,
                row@.len() == j,
                ws.len() == j,
                perturb_spec(basev, noise@, attempt as int, n as int, 0, Seq::<Seq<Rat>>::empty())
                    == perturb_spec(
                    basev,
                    noise@,
                    attempt as int,
                    n as int,
                    i as int,
                    mat_view(p),
                ),
                mat_view(p).len() == i,
                p@.len() == i,
                perturb_row_acc(basev, noise@, attempt as int, n as int, i as int, 0, Seq::<
                    Rat,
                >::empty()) == perturb_row_acc(
                    basev,
                    noise@,
                    attempt as int,
                    n as int,
                    i as int,
                    j as int,
                    row@,
                ),
                forall|k: int| 0 <= k < j ==> (#[trigger] row@[k]).wf(),
                forall|k: int|
                    0 <= k < j ==> -1000 <= #[trigger] ws[k] <= 1000 && q_eq(
                        (row@[k])@,
                        q_add(basev[i as int][k]@, Q { n: ws[k], d: 2000000 }),
                    ),
            decreases n - j,
        {
            proof {
                assert(i as int * (n as int) <= 4096 * 4096) by (nonlinear_arith)
                    requires
                        0 <= i < n,
                        0 < n <= 4096,
                ;
            }
            let idx128: u128 = ((attempt as u128) + (i as u128) * (n as u128) + (j as u128)) % (
            noise.len() as u128);
            proof {
                assert(idx128 < noise@.len());
                assert(idx128 == (attempt as int + i as int * n as int + j as int) % (
                noise@.len() as int));
            }
            let raw = noise[idx128 as usize];
            let k: i64 = if raw < -1000 {
                -1000
            } else if raw > 1000 {
                1000
            } else {
                raw
            };
            proof {
                assert(k as int == noise_at(
                    noise@,
                    attempt as int,
                    n as int,
                    i as int,
                    j as int,
                ));
            }
            let shift = Rat { n: k, d: 2000000 };
            let e = match rat_add(&base[i][j], &shift) {
                Some(e) => e,
                None => {
                    proof {
                        assert(basev[i as int][j as int] == base@[i as int]@[j as int]);
                        assert(perturb_row_acc(
                            basev,
                            noise@,
                            attempt as int,
                            n as int,
                            i as int,
                            j as int,
                            row@,
                        ) is None);
                        assert(perturb_spec(
                            basev,
                            noise@,
                            attempt as int,
                            n as int,
                            i as int,
                            mat_view(p),
                        ) is None);
                    }
                    return None;
                },
            };
            proof {
                assert(basev[i as int][j as int] == base@[i as int]@[j as int]);
                ws = ws.push(k as int);
            }
            row.push(e);
            j = j + 1;
        }
        proof {
            wss = wss.push(ws);
            assert(perturb_row_acc(
                basev,
                noise@,
                attempt as int,
                n as int,
                i as int,
                0,
                Seq::<Rat>::empty(),
            ) == Some(row@));
        }
        let ghost mold = mat_view(p);
        p.push(row);
        proof {
            assert(mat_view(p) =~= mold.push(row@));
        }
        i = i + 1;
    }
    proof {
        assert forall|k: int, j: int|
            0 <= k < n && 0 <= j < n implies entry_shifted(
            basev[k][j],
            #[trigger] mat_view(p)[k][j],
        ) by {
            assert(mat_view(p)[k] == p@[k]@);
            lemma_entry_shifted(basev[k][j], p@[k]@[j], wss[k][j]);
        }
        assert forall|k: int| 0 <= k < n implies (#[trigger] mat_view(p)[k]).len() == n by {
            assert(mat_view(p)[k] == p@[k]@);
        }
    }
    Some(p)
}

/// The exact result of [`perturb_and_invert`] from attempt `attempt` on:
/// the first attempt whose perturbation computes, inverts, and certifies
/// as an exact inverse wins; the retry cap ends in `Singular`.
pub open spec fn pai_spec(
    base: Seq<Seq<Rat>>,
    noise: Seq<i64>,
    n: int,
    cap: int,
    attempt: int,
) -> Result<(Seq<Seq<Rat>>, Seq<Seq<Rat>>), SolveError>
    decreases cap - attempt,
{
    if attempt >= cap {
        Err(SolveError::Singular)
    } else {
        match perturb_spec(base, noise, attempt, n, 0, Seq::<Seq<Rat>>::empty()) {
            None => pai_spec(base, noise, n, cap, attempt + 1),
            Some(p) => match invert_spec(p) {
                None => pai_spec(base, noise, n, cap, attempt + 1),
                Some(inv) => if product_check_spec(p, inv, 0) {
                    Ok((p, inv))
                } else {
                    pai_spec(base, noise, n, cap, attempt + 1)
                },
            },
        }
    }
}

/// The randomized-perturbation fallback: up to `max_attempts` times, add a
/// fresh clamped noise window to `base` and attempt an exact inversion.
/// The outcome is pinned by [`pai_spec`]: the returned pair belongs to the
/// first attempt that succeeds, `perturbed` differs from `base` by exactly
/// the clamped noise window of that attempt (at most `1/2000` per entry),
/// `perturbed * inverse` is exactly the identity, and failure comes only
/// when every attempt within the cap fails.
pub fn perturb_and_invert(base: &Vec<Vec<Rat>>, noise: &Vec<i64>, max_attempts: usize) -> (r:
    Result<(Vec<Vec<Rat>>, Vec<Vec<Rat>>), SolveError>)
    requires
        mwf(*base, base@.len() as int),
        base@.len() <= 4096,
        noise@.len() >= 1,
    ensures
        (r is Ok) == (pai_spec(
            mat_view(*base),
            noise@,
            base@.len() as int,
            max_attempts as int,
            0,
        ) is Ok),
        r matches Ok(pair) ==> (pai_spec(
            mat_view(*base),
            noise@,
            base@.len() as int,
            max_attempts as int,
            0,
        ) matches Ok(sp) && mat_view(pair.0) == sp.0 && mat_view(pair.1) == sp.1),
        r matches Err(e) ==> e == SolveError::Singular && pai_spec(
            mat_view(*base),
            noise@,
            base@.len() as int,
            max_attempts as int,
            0,
        ) == Err::<(Seq<Seq<Rat>>, Seq<Seq<Rat>>), SolveError>(SolveError::Singular),
        r matches Ok(pair) ==> {
            &&& mwf(pair.0, base@.len() as int)
            &&& mwf(pair.1, base@.len() as int)
            &&& perturbation_bounded(mat_view(*base), mat_view(pair.0))
            &&& product_identity(mat_view(pair.0), mat_view(pair.1))
        },
{
    let n = base.len();
    let ghost bv = mat_view(*base);
    let mut attempt: usize = 0;
    while attempt < max_attempts
        invariant
            mwf(*base, n as int),
            bv == mat_view(*base),
            base@.len() == n,
            n <= 4096,
            noise@.len() >= 1,
            attempt <= max_attempts,
            pai_spec(bv, noise@, n as int, max_attempts as int, 0) == pai_spec(
                bv,
                noise@,
                n as int,
                max_attempts as int,
                attempt as int,
            ),
        decreases max_attempts - attempt,
    {
        match perturb(base, noise, attempt) {
            Some(p) => {
                match invert(&p) {
                    Some(inv) => {
                        if check_product_identity(&p, &inv) {
                            return Ok((p, inv));
                        }
                    },
                    None => {},
                }
            },
            None => {},
        }
        attempt = attempt + 1;
    }
    Err(SolveError::Singular)
}

/// A dot product against an all-zero vector has a zero numerator.
proof fn lemma_q_dot_zero_vec(row: Seq<Rat>, x: Seq<Rat>)
    requires
        row.len() == x.len(),
        forall|k: int| 0 <= k < x.len() ==> (#[trigger] x[k]).n == 0,
    ensures
        q_dot(row, x).n == 0,
    decreases row.len(),
{
    if row.len() > 0 {
        lemma_q_dot_zero_vec(row.drop_last(), x.drop_last());
        let pre = q_dot(row.drop_last(), x.drop_last());
        let t = q_mul(row.last()@, x.last()@);
        assert(t.n == 0) by (nonlinear_arith)
            requires
                t.n == row.last()@.n * x.last()@.n,
                x.last()@.n == 0,
        ;
        assert(pre.n * t.d + t.n * pre.d == 0) by (nonlinear_arith)
            requires
                pre.n == 0,
                t.n == 0,
        ;
    }
}

/// A vector whose residual is the all-ones vector cannot be all zeros.
pub proof fn lemma_residual_nonzero(a: Seq<Seq<Rat>>, x: Seq<Rat>)
    requires
        a.len() >= 1,
        a[0].len() == x.len(),
        vec_wf(a[0]),
        vec_wf(x),
        residual_ones(a, x),
    ensures
        exists|k: int| 0 <= k < x.len() && (#[trigger] x[k]).n != 0,
{
    if forall|k: int| 0 <= k < x.len() ==> (#[trigger] x[k]).n == 0 {
        lemma_q_dot_zero_vec(a[0], x);
        lemma_q_dot_wf(a[0], x);
        assert(q_eq(q_dot(a[0], x), q_one()));
        assert(false);
    }
}

/// The ghost-level mirror of a [`Stationary`] outcome.
pub ghost enum StationarySpec {
    Direct { x: Seq<Rat> },
    Perturbed { p: Seq<Seq<Rat>>, x: Seq<Rat> },
}

/// The exact result of [`solve`]: invert `damped - I`, multiply the
/// inverse by ones and accept only a certified residual; otherwise run the
/// perturbed retries and certify in the same way.  A function of the
/// counts, the sample granularity, the noise stream and the retry cap
/// alone: the solve is deterministic.
pub open spec fn solve_spec(c: Seq<Seq<u32>>, sb: int, noise: Seq<i64>, cap: int) -> Result<
    StationarySpec,
    SolveError,
> {
    let d = dmi_spec(c, sb);
    let direct = match invert_spec(d) {
        Some(inv) => match ones_mul_spec(inv, 0, Seq::<Rat>::empty()) {
            Some(x) => if residual_check_spec(d, x, 0) {
                Some(x)
            } else {
                None
            },
            None => None,
        },
        None => None,
    };
    match direct {
        Some(x) => Ok(StationarySpec::Direct { x }),
        None => match pai_spec(d, noise, c.len() as int, cap, 0) {
            Err(e) => Err(e),
            Ok(pair) => match ones_mul_spec(pair.1, 0, Seq::<Rat>::empty()) {
                None => Err(SolveError::Arithmetic),
                Some(x) => if residual_check_spec(pair.0, x, 0) {
                    Ok(StationarySpec::Perturbed { p: pair.0, x })
                } else {
                    Err(SolveError::Arithmetic)
                },
            },
        },
    }
}

/// The damped near-inverse solve, certified end to end and pinned bit for
/// bit by [`solve_spec`].  Builds `damped - I` from the count matrix,
/// inverts it exactly and multiplies the inverse by the all-ones vector;
/// on inversion failure falls back to [`perturb_and_invert`].  Every
/// returned vector has been checked, in exact arithmetic, to have residual
/// exactly one in every coordinate against the matrix named in the
/// outcome; in particular, whenever the mirrored elimination and
/// certification of `damped - I` succeed, the direct outcome is owed.
pub fn solve(c: &Vec<Vec<u32>>, sb: u32, noise: &Vec<i64>, max_attempts: usize) -> (r: Result<
    Stationary,
    SolveError,
>)
    requires
        1 <= sb <= 65536,
        1 <= c@.len() <= 4096,
        noise@.len() >= 1,
        forall|i: int| 0 <= i < c@.len() ==> (#[trigger] c@[i])@.len() == c@.len(),
        forall|i: int, j: int|
            0 <= i < c@.len() && 0 <= j < c@.len() ==> #[trigger] c@[i]@[j] <= 65536,
    ensures
        (r is Ok) == (solve_spec(
            c@.map_values(|row: Vec<u32>| row@),
            sb as int,
            noise@,
            max_attempts as int,
        ) is Ok),
        r matches Ok(s) ==> match s {
            Stationary::Direct { x } => solve_spec(
                c@.map_values(|row: Vec<u32>| row@),
                sb as int,
                noise@,
                max_attempts as int,
            ) matches Ok(ss) && (ss matches StationarySpec::Direct { x: sx } && x@ == sx),
            Stationary::Perturbed { perturbed, x } => solve_spec(
                c@.map_values(|row: Vec<u32>| row@),
                sb as int,
                noise@,
                max_attempts as int,
            ) matches Ok(ss) && (ss matches StationarySpec::Perturbed { p: sp, x: sx }
                && mat_view(perturbed) == sp && x@ == sx),
        },
        r matches Err(e) ==> solve_spec(
            c@.map_values(|row: Vec<u32>| row@),
            sb as int,
            noise@,
            max_attempts as int,
        ) matches Err(se) && e == se,
        r matches Ok(s) ==> match s {
            Stationary::Direct { x } => {
                &&& x@.len() == c@.len()
                &&& vec_wf(x@)
                &&& residual_ones(dmi_spec(c@.map_values(|row: Vec<u32>| row@), sb as int), x@)
            },
            Stationary::Perturbed { perturbed, x } => {
                &&& x@.len() == c@.len()
                &&& vec_wf(x@)
                &&& mat_wf(mat_view(perturbed), c@.len() as int)
                &&& perturbation_bounded(
                    dmi_spec(c@.map_values(|row: Vec<u32>| row@), sb as int),
                    mat_view(perturbed),
                )
                &&& residual_ones(mat_view(perturbed), x@)
            },
        },
{
    let n = c.len();
    let dmi = dmi_of(c, sb);
    let ghost dv = dmi_spec(c@.map_values(|row: Vec<u32>| row@), sb as int);
    proof {
        assert forall|i: int, j: int| 0 <= i < n && 0 <= j < n implies (
        #[trigger] dmi@[i]@[j]).wf() by {
            assert(mat_view(dmi)[i] == dmi@[i]@);
            assert(mat_view(dmi)[i][j] == dmi@[i]@[j]);
        }
        assert forall|i: int| 0 <= i < n implies (#[trigger] dmi@[i])@.len() == n by {
            assert(mat_view(dmi)[i] == dmi@[i]@);
        }
    }
    match invert(&dmi) {
        Some(inv) => {
            match mat_vec_ones(&inv) {
                Some(x) => {
                    if check_residual(&dmi, &x) {
                        return Ok(Stationary::Direct { x });
                    }
                },
                None => {},
            }
        },
        None => {},
    }
    proof {
        assert(mat_view(dmi).len() == n);
        assert(dmi@.len() == n);
    }
    let (p, pinv) = match perturb_and_invert(&dmi, noise, max_attempts) {
        Ok(pair) => pair,
        Err(e) => {
            proof {
                assert(pai_spec(dv, noise@, n as int, max_attempts as int, 0) is Err);
                assert(e == SolveError::Singular);
                assert(solve_spec(
                    c@.map_values(|row: Vec<u32>| row@),
                    sb as int,
                    noise@,
                    max_attempts as int,
                ) is Err);
            }
            return Err(e);
        },
    };
    let x = match mat_vec_ones(&pinv) {
        Some(x) => x,
        None => {
            return Err(SolveError::Arithmetic);
        },
    };
    if check_residual(&p, &x) {
        Ok(Stationary::Perturbed { perturbed: p, x })
    } else {
        Err(SolveError::Arithmetic)
    }
}

} // verus!
