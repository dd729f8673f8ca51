//! Properties that relate several calls or hold for every input: packing
//! round trips, determinism, independence from layout, `beta == 0`, and
//! agreement with the triple loop on wrapping integers.
use vstd::prelude::*;
use crate::number::Number;
use crate::matrix::{Matrix, elem};
use crate::kernel::{blend, dot, lemma_dot_ext, lemma_grid};
use crate::executor::lemma_num_steps_next;
use vstd::wrapping::i64_specs::signed_crop;
use vstd::arithmetic::div_mod::{lemma_add_mod_noop, lemma_mod_add_multiples_vanish, lemma_mod_sub_multiples_vanish, lemma_mod_twice, lemma_mul_mod_noop, lemma_small_mod};
use crate::gemm::{
    GemmError, Params, accumulated, gemm_post, storage, gemm_result, in_output, num_panels, operand_fn, panel_dot, panel_len,
};
use crate::blocking::{packed_a, packed_b};

verus! {

/// Term `p` of lane `lane` of a panel packed `w` lanes wide.
pub open spec fn packed_at<F>(packed: Seq<F>, w: int, lane: int, p: int) -> F {
    packed[lane + p * w]
}

/// Unpacking a packed row group of `A` by the inverse addressing
/// `lane + p * mr` gives back the rows of `A` it was packed from.
pub proof fn lemma_pack_a_round_trip<F, A: Matrix>(pa: Seq<F>, a: A, abuf: Seq<F>, i0: int, k: int, mr: int)
    requires
        0 < mr,
        0 <= k,
        packed_a(pa, a, abuf, i0, k, mr),
    ensures
        forall|ii: int, p: int|
            0 <= ii < mr && 0 <= p < k ==> #[trigger] packed_at(pa, mr, ii, p) == elem(a, abuf, i0 + ii, p),
{
    assert forall|ii: int, p: int| 0 <= ii < mr && 0 <= p < k implies #[trigger] packed_at(pa, mr, ii, p) == elem(
        a,
        abuf,
        i0 + ii,
        p,
    ) by {
        lemma_grid(ii + p * mr, mr, p, ii);
        assert(ii + p * mr < k * mr) by (nonlinear_arith)
            requires
                0 <= ii < mr,
                0 <= p < k,
        ;
        assert(pa[ii + p * mr] == elem(a, abuf, i0 + ii, p));
    }
}

/// Unpacking a packed column group of `B` by the inverse addressing
/// `lane + p * nr` gives back the columns of `B` it was packed from.
pub proof fn lemma_pack_b_round_trip<F, B: Matrix>(pb: Seq<F>, b: B, bbuf: Seq<F>, j0: int, k: int, nr: int)
    requires
        0 < nr,
        0 <= k,
        packed_b(pb, b, bbuf, j0, k, nr),
    ensures
        forall|jj: int, p: int|
            0 <= jj < nr && 0 <= p < k ==> #[trigger] packed_at(pb, nr, jj, p) == elem(b, bbuf, p, j0 + jj),
{
    assert forall|jj: int, p: int| 0 <= jj < nr && 0 <= p < k implies #[trigger] packed_at(pb, nr, jj, p) == elem(
        b,
        bbuf,
        p,
        j0 + jj,
    ) by {
        lemma_grid(jj + p * nr, nr, p, jj);
        assert(jj + p * nr < k * nr) by (nonlinear_arith)
            requires
                0 <= jj < nr,
                0 <= p < k,
        ;
        assert(pb[jj + p * nr] == elem(b, bbuf, p, j0 + jj));
    }
}

/// The outcome of `gemm` is a function of its arguments alone: two calls on
/// the same arguments and the same `C` give the same result and the same
/// `C`, whatever executor ran them and however often they are repeated.
pub proof fn lemma_outcome_determined<F: Number>(
    params: Params,
    transa: bool,
    transb: bool,
    transc: bool,
    m: int,
    n: int,
    k: int,
    alpha: F,
    a: Seq<F>,
    lda: int,
    b: Seq<F>,
    ldb: int,
    beta: F,
    ldc: int,
    c_old: Seq<F>,
    c1: Seq<F>,
    r1: Result<(), GemmError>,
    c2: Seq<F>,
    r2: Result<(), GemmError>,
)
    requires
        gemm_post(params, transa, transb, transc, m, n, k, alpha, a, lda, b, ldb, beta, ldc, c_old, c1, r1),
        gemm_post(params, transa, transb, transc, m, n, k, alpha, a, lda, b, ldb, beta, ldc, c_old, c2, r2),
    ensures
        r1 == r2,
        c1 == c2,
{
    if r1 is Ok {
        assert forall|pos: int| 0 <= pos < c1.len() implies c1[pos] == c2[pos] by {
            if in_output(ldc, transc, m, n, pos) {
                let (i, j) = choose|i: int, j: int|
                    0 <= i < m && 0 <= j < n && pos == #[trigger] storage(ldc, transc, i, j);
                assert(c1[storage(ldc, transc, i, j)] == c2[storage(ldc, transc, i, j)]);
            }
        }
        assert(c1 =~= c2);
    }
}

/// Panel `t` of a depth `k` lies inside `0 .. k`.
proof fn lemma_panel_inside(k: int, kc: int, t: int)
    requires
        0 < kc,
        0 <= t < num_panels(k, kc),
        0 < k,
    ensures
        0 <= t * kc,
        0 < panel_len(k, kc, t),
        t * kc + panel_len(k, kc, t) <= k,
{
    lemma_num_steps_next(0, k, kc, t);
    assert(0 <= t * kc) by (nonlinear_arith)
        requires
            0 <= t,
            0 < kc,
    ;
}

/// Operands that agree on their regions give the same accumulation.
proof fn lemma_accumulated_ext<F: Number>(
    alpha: F,
    beta: F,
    x1: spec_fn(int, int) -> F,
    y1: spec_fn(int, int) -> F,
    x2: spec_fn(int, int) -> F,
    y2: spec_fn(int, int) -> F,
    k: int,
    kc: int,
    i: int,
    j: int,
    c0: F,
    t: nat,
)
    requires
        0 < kc,
        0 < k,
        t <= num_panels(k, kc),
        forall|p: int| 0 <= p < k ==> #[trigger] x1(i, p) == x2(i, p),
        forall|p: int| 0 <= p < k ==> #[trigger] y1(p, j) == y2(p, j),
    ensures
        accumulated(alpha, beta, x1, y1, k, kc, i, j, c0, t) == accumulated(alpha, beta, x2, y2, k, kc, i, j, c0, t),
    decreases t,
{
    if t > 0 {
        lemma_accumulated_ext(alpha, beta, x1, y1, x2, y2, k, kc, i, j, c0, (t - 1) as nat);
        let p0 = (t - 1) * kc;
        let len = panel_len(k, kc, t - 1);
        lemma_panel_inside(k, kc, t - 1);
        lemma_dot_ext(|p: int| x1(i, p0 + p), |p: int| y1(p0 + p, j), |p: int| x2(i, p0 + p), |p: int| y2(p0 + p, j), len as nat);
        assert(panel_dot(x1, y1, i, j, p0, len) == panel_dot(x2, y2, i, j, p0, len));
    }
}

/// The result does not depend on how the operands are laid out: two
/// successful calls whose `A`, `B` and old `C` hold the same logical
/// matrices, in either orientation and with any leading dimensions, give
/// the same logical output.
pub proof fn lemma_layout_independent<F: Number>(
    params: Params,
    m: int,
    n: int,
    k: int,
    alpha: F,
    beta: F,
    transa1: bool,
    transb1: bool,
    transc1: bool,
    a1: Seq<F>,
    lda1: int,
    b1: Seq<F>,
    ldb1: int,
    ldc1: int,
    c_old1: Seq<F>,
    c_new1: Seq<F>,
    transa2: bool,
    transb2: bool,
    transc2: bool,
    a2: Seq<F>,
    lda2: int,
    b2: Seq<F>,
    ldb2: int,
    ldc2: int,
    c_old2: Seq<F>,
    c_new2: Seq<F>,
)
    requires
        0 <= m,
        0 <= n,
        0 <= k,
        gemm_post(params, transa1, transb1, transc1, m, n, k, alpha, a1, lda1, b1, ldb1, beta, ldc1, c_old1, c_new1, Ok(())),
        gemm_post(params, transa2, transb2, transc2, m, n, k, alpha, a2, lda2, b2, ldb2, beta, ldc2, c_old2, c_new2, Ok(())),
        forall|i: int, p: int|
            0 <= i < m && 0 <= p < k ==> #[trigger] operand_fn(a1, lda1, transa1)(i, p) == operand_fn(a2, lda2, transa2)(i, p),
        forall|p: int, j: int|
            0 <= p < k && 0 <= j < n ==> #[trigger] operand_fn(b1, ldb1, transb1)(p, j) == operand_fn(b2, ldb2, transb2)(p, j),
        forall|i: int, j: int|
            0 <= i < m && 0 <= j < n ==> #[trigger] c_old1[storage(ldc1, transc1, i, j)] == c_old2[storage(ldc2, transc2, i, j)],
    ensures
        forall|i: int, j: int|
            0 <= i < m && 0 <= j < n ==> #[trigger] c_new1[storage(ldc1, transc1, i, j)] == c_new2[storage(ldc2, transc2, i, j)],
{
    assert forall|i: int, j: int| 0 <= i < m && 0 <= j < n implies #[trigger] c_new1[storage(ldc1, transc1, i, j)]
        == c_new2[storage(ldc2, transc2, i, j)] by {
        let x1 = operand_fn(a1, lda1, transa1);
        let y1 = operand_fn(b1, ldb1, transb1);
        let x2 = operand_fn(a2, lda2, transa2);
        let y2 = operand_fn(b2, ldb2, transb2);
        assert forall|p: int| 0 <= p < k implies #[trigger] x1(i, p) == x2(i, p) by {
            assert(operand_fn(a1, lda1, transa1)(i, p) == operand_fn(a2, lda2, transa2)(i, p));
        }
        assert forall|p: int| 0 <= p < k implies #[trigger] y1(p, j) == y2(p, j) by {
            assert(operand_fn(b1, ldb1, transb1)(p, j) == operand_fn(b2, ldb2, transb2)(p, j));
        }
        let c0 = c_old1[storage(ldc1, transc1, i, j)];
        assert(c0 == c_old2[storage(ldc2, transc2, i, j)]);
        lemma_accumulated_ext(
            alpha,
            beta,
            x1,
            y1,
            x2,
            y2,
            k,
            params.kc as int,
            i,
            j,
            c0,
            num_panels(k, params.kc as int) as nat,
        );
    }
}

/// After its first panel, an accumulation with `beta` zero no longer
/// depends on the old value.
proof fn lemma_accumulated_beta_zero<F: Number>(
    alpha: F,
    beta: F,
    x: spec_fn(int, int) -> F,
    y: spec_fn(int, int) -> F,
    k: int,
    kc: int,
    i: int,
    j: int,
    c0: F,
    c1: F,
    t: nat,
)
    requires
        F::spec_is_zero(beta),
        0 < t,
    ensures
        accumulated(alpha, beta, x, y, k, kc, i, j, c0, t) == accumulated(alpha, beta, x, y, k, kc, i, j, c1, t),
    decreases t,
{
    if t > 1 {
        lemma_accumulated_beta_zero(alpha, beta, x, y, k, kc, i, j, c0, c1, (t - 1) as nat);
    }
}

/// With `beta` zero the old contents of `C` are overwritten, never read:
/// the result is the same whatever they were.
pub proof fn lemma_beta_zero_overwrites<F: Number>(
    params: Params,
    transa: bool,
    transb: bool,
    k: int,
    alpha: F,
    a: Seq<F>,
    lda: int,
    b: Seq<F>,
    ldb: int,
    beta: F,
    i: int,
    j: int,
    c0: F,
    c1: F,
)
    requires
        params.wf(),
        0 < k,
        F::spec_is_zero(beta),
    ensures
        gemm_result(params, transa, transb, k, alpha, a, lda, b, ldb, beta, i, j, c0) == gemm_result(
            params,
            transa,
            transb,
            k,
            alpha,
            a,
            lda,
            b,
            ldb,
            beta,
            i,
            j,
            c1,
        ),
{
    lemma_num_steps_next(0, k, params.kc as int, 0);
    lemma_accumulated_beta_zero(
        alpha,
        beta,
        operand_fn(a, lda, transa),
        operand_fn(b, ldb, transb),
        k,
        params.kc as int,
        i,
        j,
        c0,
        c1,
        num_panels(k, params.kc as int) as nat,
    );
}

/// `2^64`, the modulus of wrapping `i64` arithmetic.
pub open spec fn modulus() -> int {
    0x1_0000_0000_0000_0000
}

/// `sum_{p < n} x(i, p) * y(p, j)` over the integers: the inner loop of the
/// straightforward triple-loop product.
pub open spec fn row_col_sum(x: spec_fn(int, int) -> i64, y: spec_fn(int, int) -> i64, i: int, j: int, n: nat) -> int
    decreases n,
{
    if n == 0 {
        0
    } else {
        row_col_sum(x, y, i, j, (n - 1) as nat) + x(i, n - 1) * y(n - 1, j)
    }
}

/// The triple-loop value of element `(i, j)`: `alpha * sum + beta * c0`,
/// wrapped to `i64`.
pub open spec fn reference_entry(
    transa: bool,
    transb: bool,
    k: int,
    alpha: i64,
    a: Seq<i64>,
    lda: int,
    b: Seq<i64>,
    ldb: int,
    beta: i64,
    i: int,
    j: int,
    c0: i64,
) -> i64 {
    signed_crop(alpha * row_col_sum(operand_fn(a, lda, transa), operand_fn(b, ldb, transb), i, j, k as nat) + beta * c0)
}

proof fn lemma_crop_cong(x: int)
    ensures
        (signed_crop(x) as int) % modulus() == x % modulus(),
{
    let md = modulus();
    let r = x % md;
    assert(0 <= r < md);
    lemma_mod_twice(x, md);
    if r > i64::MAX {
        assert(signed_crop(x) as int == r - md);
        lemma_mod_sub_multiples_vanish(r, md);
    } else {
        assert(signed_crop(x) as int == r);
    }
}

proof fn lemma_crop_fixed(v: i64)
    ensures
        signed_crop(v as int) == v,
{
    let md = modulus();
    if v >= 0 {
        lemma_small_mod(v as nat, md as nat);
    } else {
        lemma_mod_add_multiples_vanish(v as int, md);
        lemma_small_mod((v + md) as nat, md as nat);
    }
}

/// Two values congruent modulo `2^64` crop to the same `i64`.
proof fn lemma_crop_same(x: int, y: int)
    requires
        x % modulus() == y % modulus(),
    ensures
        signed_crop(x) == signed_crop(y),
{
}

proof fn lemma_cong_add(u: int, v: int, u2: int, v2: int)
    requires
        u % modulus() == u2 % modulus(),
        v % modulus() == v2 % modulus(),
    ensures
        (u + v) % modulus() == (u2 + v2) % modulus(),
{
    lemma_add_mod_noop(u, v, modulus());
    lemma_add_mod_noop(u2, v2, modulus());
}

proof fn lemma_cong_mul(u: int, v: int, u2: int, v2: int)
    requires
        u % modulus() == u2 % modulus(),
        v % modulus() == v2 % modulus(),
    ensures
        (u * v) % modulus() == (u2 * v2) % modulus(),
{
    lemma_mul_mod_noop(u, v, modulus());
    lemma_mul_mod_noop(u2, v2, modulus());
}

/// Wrapping addition and multiplication are congruent to the exact ones.
proof fn lemma_wrapping_cong(a: i64, b: i64)
    ensures
        (<i64 as Number>::spec_plus(a, b) as int) % modulus() == (a + b) % modulus(),
        (<i64 as Number>::spec_times(a, b) as int) % modulus() == (a * b) % modulus(),
{
    let md = modulus();
    let s = a + b;
    if s > i64::MAX {
        lemma_mod_sub_multiples_vanish(s, md);
    } else if s < i64::MIN {
        lemma_mod_add_multiples_vanish(s, md);
    }
    lemma_crop_cong(a * b);
}

/// The `i64` inner product is congruent to the exact sum of products.
proof fn lemma_dot_cong(x: spec_fn(int, int) -> i64, y: spec_fn(int, int) -> i64, i: int, j: int, p0: int, n: nat)
    requires
        0 <= p0,
    ensures
        (dot(|p: int| x(i, p0 + p), |p: int| y(p0 + p, j), n) as int) % modulus() == (row_col_sum(
            x,
            y,
            i,
            j,
            (p0 + n) as nat,
        ) - row_col_sum(x, y, i, j, p0 as nat)) % modulus(),
    decreases n,
{
    let xs = |p: int| x(i, p0 + p);
    let ys = |p: int| y(p0 + p, j);
    if n == 0 {
    } else {
        lemma_dot_cong(x, y, i, j, p0, (n - 1) as nat);
        let prev = dot(xs, ys, (n - 1) as nat);
        let av = xs(n - 1);
        let bv = ys(n - 1);
        let pr = <i64 as Number>::spec_times(av, bv);
        lemma_wrapping_cong(av, bv);
        lemma_wrapping_cong(pr, prev);
        let before = row_col_sum(x, y, i, j, (p0 + n - 1) as nat) - row_col_sum(x, y, i, j, p0 as nat);
        assert(av == x(i, p0 + n - 1));
        assert(bv == y(p0 + n - 1, j));
        assert(row_col_sum(x, y, i, j, (p0 + n) as nat) == row_col_sum(x, y, i, j, (p0 + n - 1) as nat) + x(i, p0 + n - 1) * y(p0 + n - 1, j));
        assert(row_col_sum(x, y, i, j, (p0 + n) as nat) - row_col_sum(x, y, i, j, p0 as nat) == before + av * bv);
        lemma_cong_add(pr as int, prev as int, av * bv, before);
    }
}

/// After `t` panels the accumulation is congruent to `alpha` times the sum
/// over the depth covered so far, plus `beta * c0`.
proof fn lemma_accumulated_cong(
    alpha: i64,
    beta: i64,
    x: spec_fn(int, int) -> i64,
    y: spec_fn(int, int) -> i64,
    k: int,
    kc: int,
    i: int,
    j: int,
    c0: i64,
    t: nat,
)
    requires
        0 < kc,
        0 < k,
        1 <= t <= num_panels(k, kc),
    ensures
        (accumulated(alpha, beta, x, y, k, kc, i, j, c0, t) as int) % modulus() == (alpha * row_col_sum(
            x,
            y,
            i,
            j,
            ((t - 1) * kc + panel_len(k, kc, t - 1)) as nat,
        ) + beta * c0) % modulus(),
    decreases t,
{
    let md = modulus();
    let p0 = (t - 1) * kc;
    let len = panel_len(k, kc, t - 1);
    lemma_panel_inside(k, kc, t - 1);
    let d = panel_dot(x, y, i, j, p0, len);
    lemma_dot_cong(x, y, i, j, p0, len as nat);
    let part = row_col_sum(x, y, i, j, (p0 + len) as nat) - row_col_sum(x, y, i, j, p0 as nat);
    let ad = <i64 as Number>::spec_times(alpha, d);
    lemma_wrapping_cong(alpha, d);
    lemma_cong_mul(alpha as int, d as int, alpha as int, part);
    if t == 1 {
        assert(p0 == 0) by (nonlinear_arith)
            requires
                p0 == (t - 1) * kc,
                t == 1,
        ;
        assert(row_col_sum(x, y, i, j, 0) == 0);
        let bc = <i64 as Number>::spec_times(beta, c0);
        lemma_wrapping_cong(beta, c0);
        if beta == 0 {
            assert(beta * c0 == 0) by (nonlinear_arith)
                requires
                    beta == 0,
            ;
        } else {
            lemma_wrapping_cong(ad, bc);
            lemma_cong_add(ad as int, bc as int, alpha * part, beta * c0);
        }
    } else {
        let prev = accumulated(alpha, beta, x, y, k, kc, i, j, c0, (t - 1) as nat);
        lemma_accumulated_cong(alpha, beta, x, y, k, kc, i, j, c0, (t - 1) as nat);
        lemma_num_steps_next(0, k, kc, t - 2);
        lemma_num_steps_next(0, k, kc, t - 1);
        assert((t - 2) * kc + kc == p0) by (nonlinear_arith)
            requires
                p0 == (t - 1) * kc,
        ;
        assert(panel_len(k, kc, t - 2) == kc);
        let before = row_col_sum(x, y, i, j, p0 as nat);
        lemma_wrapping_cong(ad, prev);
        lemma_cong_add(ad as int, prev as int, alpha * part, alpha * before + beta * c0);
        assert(alpha * part + (alpha * before + beta * c0) == alpha * (before + part) + beta * c0) by (nonlinear_arith);
    }
}

/// On the exact ring of wrapping `i64` arithmetic the blocked product equals
/// the straightforward triple loop, for every blocking and tiling: element
/// `(i, j)` is `alpha * sum_p op(A)(i, p) * op(B)(p, j) + beta * c0`, wrapped.
pub proof fn lemma_i64_matches_reference(
    params: Params,
    transa: bool,
    transb: bool,
    k: int,
    alpha: i64,
    a: Seq<i64>,
    lda: int,
    b: Seq<i64>,
    ldb: int,
    beta: i64,
    i: int,
    j: int,
    c0: i64,
)
    requires
        params.wf(),
        0 < k,
    ensures
        gemm_result(params, transa, transb, k, alpha, a, lda, b, ldb, beta, i, j, c0) == reference_entry(
            transa,
            transb,
            k,
            alpha,
            a,
            lda,
            b,
            ldb,
            beta,
            i,
            j,
            c0,
        ),
{
    let kc = params.kc as int;
    let np = num_panels(k, kc);
    let x = operand_fn(a, lda, transa);
    let y = operand_fn(b, ldb, transb);
    lemma_num_steps_next(0, k, kc, 0);
    lemma_num_steps_next(0, k, kc, np - 1);
    lemma_num_steps_next(0, k, kc, np);
    assert((np - 1) * kc + kc == np * kc) by (nonlinear_arith);
    assert((np - 1) * kc + panel_len(k, kc, np - 1) == k);
    lemma_accumulated_cong(alpha, beta, x, y, k, kc, i, j, c0, np as nat);
    let v = accumulated(alpha, beta, x, y, k, kc, i, j, c0, np as nat);
    lemma_crop_fixed(v);
    lemma_crop_same(v as int, alpha * row_col_sum(x, y, i, j, k as nat) + beta * c0);
}

/// Writing the output transposed gives the same result, read back through
/// the transposed addressing: a call that stores `C` column-major with
/// leading dimension `ldc1` and one that stores it row-major with `ldc2`,
/// starting from the same logical `C`, end with the same logical `C`.
pub proof fn lemma_transposed_output_read_back<F: Number>(
    params: Params,
    transa: bool,
    transb: bool,
    m: int,
    n: int,
    k: int,
    alpha: F,
    a: Seq<F>,
    lda: int,
    b: Seq<F>,
    ldb: int,
    beta: F,
    ldc1: int,
    c_old1: Seq<F>,
    c_new1: Seq<F>,
    ldc2: int,
    c_old2: Seq<F>,
    c_new2: Seq<F>,
)
    requires
        0 <= m,
        0 <= n,
        0 <= k,
        gemm_post(params, transa, transb, false, m, n, k, alpha, a, lda, b, ldb, beta, ldc1, c_old1, c_new1, Ok(())),
        gemm_post(params, transa, transb, true, m, n, k, alpha, a, lda, b, ldb, beta, ldc2, c_old2, c_new2, Ok(())),
        forall|i: int, j: int| 0 <= i < m && 0 <= j < n ==> c_old2[j + i * ldc2] == #[trigger] c_old1[i + j * ldc1],
    ensures
        forall|i: int, j: int| 0 <= i < m && 0 <= j < n ==> c_new2[j + i * ldc2] == #[trigger] c_new1[i + j * ldc1],
{
    assert forall|i: int, j: int| 0 <= i < m && 0 <= j < n implies #[trigger] c_old1[storage(ldc1, false, i, j)]
        == c_old2[storage(ldc2, true, i, j)] by {
        assert(c_old2[j + i * ldc2] == c_old1[i + j * ldc1]);
        assert(storage(ldc2, true, i, j) == j + i * ldc2);
    }
    lemma_layout_independent(
        params, m, n, k, alpha, beta, transa, transb, false, a, lda, b, ldb, ldc1, c_old1, c_new1, transa, transb,
        true, a, lda, b, ldb, ldc2, c_old2, c_new2,
    );
    assert forall|i: int, j: int| 0 <= i < m && 0 <= j < n implies c_new2[j + i * ldc2] == #[trigger] c_new1[i + j
        * ldc1] by {
        assert(c_new1[storage(ldc1, false, i, j)] == c_new2[storage(ldc2, true, i, j)]);
        assert(storage(ldc2, true, i, j) == j + i * ldc2);
    }
}

/// With `beta` zero the old contents of `C` are never read: two calls that
/// differ only in what `C` held before give the same outcome and the same
/// output elements, whatever the old contents were.
pub proof fn lemma_beta_zero_ignores_old_output<F: Number>(
    params: Params,
    transa: bool,
    transb: bool,
    transc: bool,
    m: int,
    n: int,
    k: int,
    alpha: F,
    a: Seq<F>,
    lda: int,
    b: Seq<F>,
    ldb: int,
    beta: F,
    ldc: int,
    c_old1: Seq<F>,
    c_new1: Seq<F>,
    r1: Result<(), GemmError>,
    c_old2: Seq<F>,
    c_new2: Seq<F>,
    r2: Result<(), GemmError>,
)
    requires
        0 <= k,
        F::spec_is_zero(beta),
        c_old1.len() == c_old2.len(),
        gemm_post(params, transa, transb, transc, m, n, k, alpha, a, lda, b, ldb, beta, ldc, c_old1, c_new1, r1),
        gemm_post(params, transa, transb, transc, m, n, k, alpha, a, lda, b, ldb, beta, ldc, c_old2, c_new2, r2),
    ensures
        r1 == r2,
        r1 is Ok ==> forall|i: int, j: int|
            0 <= i < m && 0 <= j < n ==> #[trigger] c_new1[storage(ldc, transc, i, j)] == c_new2[storage(
                ldc,
                transc,
                i,
                j,
            )],
{
    if r1 is Ok {
        assert forall|i: int, j: int| 0 <= i < m && 0 <= j < n implies #[trigger] c_new1[storage(ldc, transc, i, j)]
            == c_new2[storage(ldc, transc, i, j)] by {
            lemma_beta_zero_overwrites(
                params,
                transa,
                transb,
                k,
                alpha,
                a,
                lda,
                b,
                ldb,
                beta,
                i,
                j,
                c_old1[storage(ldc, transc, i, j)],
                c_old2[storage(ldc, transc, i, j)],
            );
        }
    }
}

/// On the first depth panel, with `beta` zero, every kernel's stored value
/// is `alpha * acc` and does not depend on the old element of `C`.
pub proof fn lemma_first_panel_overwrites<F: Number>(alpha: F, acc: F, beta: F, c0: F, c1: F)
    requires
        F::spec_is_zero(beta),
    ensures
        blend(alpha, acc, beta, c0, true) == F::spec_times(alpha, acc),
        blend(alpha, acc, beta, c0, true) == blend(alpha, acc, beta, c1, true),
{
}

} // verus!
