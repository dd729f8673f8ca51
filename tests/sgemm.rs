use blockgemm::executor::{DefaultExecutor, RayonExecutor};
use rand::{Rng, SeedableRng};
use blockgemm::gemm::{gemm, Params};
use blockgemm::generic::GenericKernel;
use blockgemm::number::Number;

const M_LEN: usize = 17;
const N_LEN: usize = 6;
const K_LEN: usize = 4;

#[derive(Clone, Copy, Debug, PartialEq)]
struct F32(f32);

// Compiled, the specification functions of `Number` are ordinary trait
// functions; here they are the operations themselves.
impl Number for F32 {
    fn spec_zero() -> F32 {
        Self::zero()
    }

    fn spec_plus(a: F32, b: F32) -> F32 {
        Self::plus(a, b)
    }

    fn spec_times(a: F32, b: F32) -> F32 {
        Self::times(a, b)
    }

    fn spec_mul_add(a: F32, b: F32, c: F32) -> F32 {
        Self::mul_add(a, b, c)
    }

    fn spec_is_zero(a: F32) -> bool {
        Self::is_zero(a)
    }

    fn zero() -> F32 {
        F32(0.0)
    }

    fn plus(a: F32, b: F32) -> F32 {
        F32(a.0 + b.0)
    }

    fn times(a: F32, b: F32) -> F32 {
        F32(a.0 * b.0)
    }

    fn mul_add(a: F32, b: F32, c: F32) -> F32 {
        F32(a.0.mul_add(b.0, c.0))
    }

    fn is_zero(a: F32) -> bool {
        a.0 == 0.0
    }
}

fn make_matrices() -> (Vec<F32>, Vec<F32>, Vec<F32>, Vec<F32>) {
    let (m, n, k) = (M_LEN, N_LEN, K_LEN);

    let mut a = vec![F32(0.0); m * k];
    let mut a_t = vec![F32(0.0); m * k];

    let mut b = vec![F32(0.0); n * k];
    let mut b_t = vec![F32(0.0); n * k];

    let mut counter = 0;
    for row in 0..k {
        for col in 0..m {
            let v = F32(counter as f32);
            a[row * m + col] = v;
            a_t[col * k + row] = v;
            counter += 1;
        }
    }

    let mut counter = 0;
    for row in 0..n {
        for col in 0..k {
            let v = F32(counter as f32);
            b[row * k + col] = v;
            b_t[col * n + row] = v;
            counter += 1;
        }
    }

    (a, a_t, b, b_t)
}

/// Column-major reference: `C(i, j) = sum_p op(A)(i, p) * op(B)(p, j)`.
fn sgemm_ref(
    transa: bool,
    transb: bool,
    m: usize,
    n: usize,
    k: usize,
    a: &[F32],
    lda: usize,
    b: &[F32],
    ldb: usize,
    c: &mut [F32],
    ldc: usize,
) {
    for j in 0..n {
        for i in 0..m {
            let mut acc = 0.0f32;
            for p in 0..k {
                let av = if transa { a[p + i * lda].0 } else { a[i + p * lda].0 };
                let bv = if transb { b[j + p * ldb].0 } else { b[p + j * ldb].0 };
                acc += av * bv;
            }
            c[i + j * ldc] = F32(acc);
        }
    }
}

fn feq(a: f32, b: f32) -> bool {
    if a == b {
        true
    } else if a == 0.0 || b == 0.0 || (a.abs() + b.abs() < std::f32::MIN_POSITIVE) {
        (a - b).abs() < std::f32::EPSILON * 10.0 * std::f32::MIN_POSITIVE
    } else {
        (a - b).abs() / (a.abs() + b.abs()) < std::f32::EPSILON * 10.0
    }
}

fn run_case(transa: bool, transb: bool) {
    let (m, n, k) = (M_LEN, N_LEN, K_LEN);
    let (a, a_t, b, b_t) = make_matrices();
    let (a_in, lda) = if transa { (a_t, k) } else { (a, m) };
    let (b_in, ldb) = if transb { (b_t, n) } else { (b, k) };

    let mut c = vec![F32(0.0); m * n];
    let mut cref = vec![F32(0.0); m * n];

    sgemm_ref(transa, transb, m, n, k, &a_in, lda, &b_in, ldb, &mut cref, m);

    let r = gemm::<_, F32, GenericKernel>(
        &DefaultExecutor,
        &Params::single(),
        transa,
        transb,
        false,
        m,
        n,
        k,
        F32(1.0),
        &a_in,
        lda,
        &b_in,
        ldb,
        F32(0.0),
        &mut c,
        m,
    );
    assert_eq!(r, Ok(()));

    for row in 0..N_LEN {
        for col in 0..M_LEN {
            let index = row * M_LEN + col;
            let (a, b) = (c[index].0, cref[index].0);
            assert!(
                feq(a, b),
                "a != b, a[{}, {}]={}, b[{}, {}]={}",
                row,
                col,
                a,
                row,
                col,
                b
            );
        }
    }
}

#[test]
fn test_sgemm_nn() {
    run_case(false, false);
}

#[test]
fn test_sgemm_nt() {
    run_case(false, true);
}

#[test]
fn test_sgemm_tn() {
    run_case(true, false);
}

#[test]
fn test_sgemm_tt() {
    run_case(true, true);
}

#[test]
fn fixture_17x6x4_is_exact() {
    let (m, n, k) = (M_LEN, N_LEN, K_LEN);
    let (a, _, b, _) = make_matrices();
    let mut c = vec![F32(0.0); m * n];
    let mut cref = vec![F32(0.0); m * n];
    sgemm_ref(false, false, m, n, k, &a, m, &b, k, &mut cref, m);
    let r = gemm::<_, F32, GenericKernel>(
        &DefaultExecutor,
        &Params::single(),
        false,
        false,
        false,
        m,
        n,
        k,
        F32(1.0),
        &a,
        m,
        &b,
        k,
        F32(0.0),
        &mut c,
        m,
    );
    assert_eq!(r, Ok(()));
    assert_eq!(c, cref);
    // C(0, 0) = sum_p A(0, p) * B(p, 0) = 0*0 + 17*1 + 34*2 + 51*3
    assert_eq!(c[0], F32(238.0));
    // C(16, 5) = sum_p (16 + 17p) * (20 + p)
    assert_eq!(c[16 + 5 * m], F32(16.0 * 20.0 + 33.0 * 21.0 + 50.0 * 22.0 + 67.0 * 23.0));
}

#[test]
fn beta_zero_never_reads_poisoned_output() {
    let (m, n, k) = (M_LEN, N_LEN, K_LEN);
    let (a, _, b, _) = make_matrices();
    let mut c = vec![F32(f32::NAN); m * n];
    let mut cref = vec![F32(0.0); m * n];
    sgemm_ref(false, false, m, n, k, &a, m, &b, k, &mut cref, m);
    let params = Params { mc: 5, kc: 3, nc: 4, mr: 3, nr: 2 };
    let r = gemm::<_, F32, GenericKernel>(
        &DefaultExecutor,
        &params,
        false,
        false,
        false,
        m,
        n,
        k,
        F32(1.0),
        &a,
        m,
        &b,
        k,
        F32(0.0),
        &mut c,
        m,
    );
    assert_eq!(r, Ok(()));
    assert!(c.iter().all(|v| !v.0.is_nan()));
    assert_eq!(c, cref);
}

fn random_matrix(rng: &mut rand::rngs::StdRng, len: usize) -> Vec<F32> {
    (0..len).map(|_| F32(rng.gen_range(-1.0f32..1.0f32))).collect()
}

#[test]
fn random_shapes_match_reference_within_tolerance() {
    let mut rng = rand::rngs::StdRng::seed_from_u64(7);
    let params = Params { mc: 7, kc: 5, nc: 6, mr: 4, nr: 3 };
    for _ in 0..30 {
        let m = rng.gen_range(1..30usize);
        let n = rng.gen_range(1..30usize);
        let k = rng.gen_range(1..30usize);
        let a = random_matrix(&mut rng, m * k);
        let b = random_matrix(&mut rng, k * n);
        let mut c = vec![F32(0.0); m * n];
        let mut cref = vec![F32(0.0); m * n];
        sgemm_ref(false, false, m, n, k, &a, m, &b, k, &mut cref, m);
        let r = gemm::<_, F32, GenericKernel>(
            &DefaultExecutor, &params, false, false, false, m, n, k, F32(1.0), &a, m, &b, k, F32(0.0), &mut c, m,
        );
        assert_eq!(r, Ok(()));
        for idx in 0..m * n {
            let (x, y) = (c[idx].0, cref[idx].0);
            assert!((x - y).abs() <= 1e-4 * (1.0 + x.abs() + y.abs()), "{} vs {} at {}", x, y, idx);
        }
    }
}

#[test]
fn executors_give_identical_bits() {
    let mut rng = rand::rngs::StdRng::seed_from_u64(11);
    let (m, n, k) = (37, 23, 19);
    let a = random_matrix(&mut rng, m * k);
    let b = random_matrix(&mut rng, k * n);
    let c0 = random_matrix(&mut rng, m * n);
    let params = Params { mc: 8, kc: 6, nc: 10, mr: 4, nr: 3 };
    let mut c1 = c0.clone();
    let mut c2 = c0.clone();
    let r1 = gemm::<_, F32, GenericKernel>(
        &DefaultExecutor, &params, false, true, false, m, n, k, F32(0.5), &a, m, &b, n, F32(2.0), &mut c1, m,
    );
    let r2 = gemm::<_, F32, GenericKernel>(
        &RayonExecutor, &params, false, true, false, m, n, k, F32(0.5), &a, m, &b, n, F32(2.0), &mut c2, m,
    );
    assert_eq!(r1, Ok(()));
    assert_eq!(r2, Ok(()));
    let bits1: Vec<u32> = c1.iter().map(|v| v.0.to_bits()).collect();
    let bits2: Vec<u32> = c2.iter().map(|v| v.0.to_bits()).collect();
    assert_eq!(bits1, bits2);
}

#[test]
fn repeated_calls_give_identical_bits() {
    let mut rng = rand::rngs::StdRng::seed_from_u64(5);
    let (m, n, k) = (29, 31, 40);
    let a = random_matrix(&mut rng, m * k);
    let b = random_matrix(&mut rng, k * n);
    let c0 = random_matrix(&mut rng, m * n);
    let params = Params { mc: 9, kc: 7, nc: 8, mr: 4, nr: 5 };
    let mut first: Option<Vec<u32>> = None;
    for _ in 0..3 {
        let mut c = c0.clone();
        let r = gemm::<_, F32, GenericKernel>(
            &RayonExecutor, &params, true, false, false, m, n, k, F32(1.5), &a, k, &b, k, F32(-1.0), &mut c, m,
        );
        assert_eq!(r, Ok(()));
        let bits: Vec<u32> = c.iter().map(|v| v.0.to_bits()).collect();
        match &first {
            None => first = Some(bits),
            Some(f) => assert_eq!(f, &bits),
        }
    }
}

#[test]
fn beta_zero_output_is_independent_of_old_contents() {
    let mut rng = rand::rngs::StdRng::seed_from_u64(3);
    let (m, n, k) = (19, 7, 11);
    let a = random_matrix(&mut rng, m * k);
    let b = random_matrix(&mut rng, k * n);
    let params = Params { mc: 6, kc: 4, nc: 5, mr: 4, nr: 3 };
    let mut c1 = vec![F32(f32::INFINITY); m * n];
    let mut c2 = random_matrix(&mut rng, m * n);
    let r1 = gemm::<_, F32, GenericKernel>(
        &DefaultExecutor, &params, false, false, true, m, n, k, F32(2.0), &a, m, &b, k, F32(0.0), &mut c1, n,
    );
    let r2 = gemm::<_, F32, GenericKernel>(
        &DefaultExecutor, &params, false, false, true, m, n, k, F32(2.0), &a, m, &b, k, F32(0.0), &mut c2, n,
    );
    assert_eq!(r1, Ok(()));
    assert_eq!(r2, Ok(()));
    let bits1: Vec<u32> = c1.iter().map(|v| v.0.to_bits()).collect();
    let bits2: Vec<u32> = c2.iter().map(|v| v.0.to_bits()).collect();
    assert_eq!(bits1, bits2);
}
