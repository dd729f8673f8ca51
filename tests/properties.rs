use blockgemm::executor::{static_partition, DefaultExecutor, Executor, RayonExecutor};
use blockgemm::gemm::{gemm, GemmError, Params};
use blockgemm::generic::GenericKernel;
use blockgemm::kernel::GemmKernel;
use blockgemm::matrix::{ConstMatrix, ConstTransposedMatrix, Matrix, MatrixMut, MutMatrix, MutTransposedMatrix};
use blockgemm::number::Number;

/// Column-major reference on wrapping integers.
fn reference(
    transa: bool,
    transb: bool,
    m: usize,
    n: usize,
    k: usize,
    alpha: i64,
    a: &[i64],
    lda: usize,
    b: &[i64],
    ldb: usize,
    beta: i64,
    c: &[i64],
    ldc: usize,
    transc: bool,
) -> Vec<i64> {
    let mut out = c.to_vec();
    for j in 0..n {
        for i in 0..m {
            let mut acc = 0i64;
            for p in 0..k {
                let av = if transa { a[p + i * lda] } else { a[i + p * lda] };
                let bv = if transb { b[j + p * ldb] } else { b[p + j * ldb] };
                acc = acc.wrapping_add(av.wrapping_mul(bv));
            }
            let pos = if transc { j + i * ldc } else { i + j * ldc };
            out[pos] = alpha.wrapping_mul(acc).wrapping_add(beta.wrapping_mul(c[pos]));
        }
    }
    out
}

fn small_params() -> Params {
    Params { mc: 5, kc: 3, nc: 4, mr: 2, nr: 3 }
}

fn filled(len: usize, seed: i64) -> Vec<i64> {
    (0..len as i64).map(|x| (x * 7 + seed) % 23 - 11).collect()
}

#[test]
fn integer_fixture_17x6x4_is_exact() {
    let (m, n, k) = (17usize, 6usize, 4usize);
    let a: Vec<i64> = (0..(m * k) as i64).collect();
    let b: Vec<i64> = (0..(n * k) as i64).collect();
    let mut c = vec![0i64; m * n];
    let r = gemm::<_, i64, GenericKernel>(
        &DefaultExecutor, &Params::single(), false, false, false, m, n, k, 1, &a, m, &b, k, 0, &mut c, m,
    );
    assert_eq!(r, Ok(()));
    assert_eq!(c, reference(false, false, m, n, k, 1, &a, m, &b, k, 0, &vec![0; m * n], m, false));
    assert_eq!(c[0], 238);
}

#[test]
fn blocked_integers_match_reference_for_many_shapes() {
    let params = small_params();
    for m in 1..12usize {
        for n in 1..10usize {
            for k in [1usize, 2, 3, 4, 7, 9] {
                let a = filled(m * k, 3);
                let b = filled(k * n, 5);
                let c0 = filled(m * n, 1);
                let mut c = c0.clone();
                let r = gemm::<_, i64, GenericKernel>(
                    &DefaultExecutor, &params, false, false, false, m, n, k, 3, &a, m, &b, k, -2, &mut c, m,
                );
                assert_eq!(r, Ok(()));
                assert_eq!(c, reference(false, false, m, n, k, 3, &a, m, &b, k, -2, &c0, m, false));
            }
        }
    }
}

#[test]
fn every_orientation_gives_the_same_product() {
    let params = small_params();
    let (m, n, k) = (13usize, 8usize, 7usize);
    // A and B as logical matrices, A(i, p) and B(p, j).
    let av = |i: usize, p: usize| ((i * 5 + p * 3) % 17) as i64 - 8;
    let bv = |p: usize, j: usize| ((p * 11 + j * 2) % 13) as i64 - 6;
    let a_n: Vec<i64> = (0..m * k).map(|x| av(x % m, x / m)).collect();
    let a_t: Vec<i64> = (0..m * k).map(|x| av(x / k, x % k)).collect();
    let b_n: Vec<i64> = (0..k * n).map(|x| bv(x % k, x / k)).collect();
    let b_t: Vec<i64> = (0..k * n).map(|x| bv(x / n, x % n)).collect();
    let mut expected = vec![0i64; m * n];
    let r = gemm::<_, i64, GenericKernel>(
        &DefaultExecutor, &params, false, false, false, m, n, k, 1, &a_n, m, &b_n, k, 0, &mut expected, m,
    );
    assert_eq!(r, Ok(()));
    for transa in [false, true] {
        for transb in [false, true] {
            for transc in [false, true] {
                let (a, lda) = if transa { (&a_t, k) } else { (&a_n, m) };
                let (b, ldb) = if transb { (&b_t, n) } else { (&b_n, k) };
                let ldc = if transc { n } else { m };
                let mut c = vec![0i64; m * n];
                let r = gemm::<_, i64, GenericKernel>(
                    &DefaultExecutor, &params, transa, transb, transc, m, n, k, 1, a, lda, b, ldb, 0, &mut c, ldc,
                );
                assert_eq!(r, Ok(()));
                for i in 0..m {
                    for j in 0..n {
                        let pos = if transc { j + i * ldc } else { i + j * ldc };
                        assert_eq!(c[pos], expected[i + j * m]);
                    }
                }
            }
        }
    }
}

#[test]
fn beta_blends_the_old_output_and_padding_is_untouched() {
    let params = small_params();
    let (m, n, k) = (5usize, 4usize, 6usize);
    let ldc = 7usize;
    let a = filled(m * k, 2);
    let b = filled(k * n, 9);
    let c0: Vec<i64> = (0..(ldc * n) as i64).map(|x| 1000 + x).collect();
    let mut c = c0.clone();
    let r = gemm::<_, i64, GenericKernel>(
        &DefaultExecutor, &params, false, false, false, m, n, k, 2, &a, m, &b, k, 3, &mut c, ldc,
    );
    assert_eq!(r, Ok(()));
    assert_eq!(c, reference(false, false, m, n, k, 2, &a, m, &b, k, 3, &c0, ldc, false));
    for j in 0..n {
        for i in m..ldc {
            assert_eq!(c[i + j * ldc], c0[i + j * ldc]);
        }
    }
    // C(0, 0) = 2 * sum_p A(0, p) * B(p, 0) + 3 * 1000
    let dot: i64 = (0..k).map(|p| a[p * m] * b[p]).sum();
    assert_eq!(c[0], 2 * dot + 3000);
}

#[test]
fn wrapping_arithmetic_is_exact_modulo_two_to_the_64() {
    let a = vec![i64::MAX, 2];
    let b = vec![3i64, i64::MIN];
    let mut c = vec![5i64];
    let r = gemm::<_, i64, GenericKernel>(
        &DefaultExecutor, &small_params(), false, false, false, 1, 1, 2, 1, &a, 1, &b, 2, 1, &mut c, 1,
    );
    assert_eq!(r, Ok(()));
    let expected = i64::MAX.wrapping_mul(3).wrapping_add(2i64.wrapping_mul(i64::MIN)).wrapping_add(5);
    assert_eq!(c[0], expected);
}

#[test]
fn rayon_and_sequential_executors_agree() {
    let params = small_params();
    let (m, n, k) = (11usize, 9usize, 8usize);
    let a = filled(m * k, 4);
    let b = filled(k * n, 6);
    let c0 = filled(m * n, 8);
    let mut c1 = c0.clone();
    let mut c2 = c0.clone();
    let r1 = gemm::<_, i64, GenericKernel>(&DefaultExecutor, &params, true, false, true, m, n, k, -1, &a, k, &b, k, 2, &mut c1, n);
    let r2 = gemm::<_, i64, GenericKernel>(&RayonExecutor, &params, true, false, true, m, n, k, -1, &a, k, &b, k, 2, &mut c2, n);
    assert_eq!(r1, Ok(()));
    assert_eq!(r2, Ok(()));
    assert_eq!(c1, c2);
    assert_eq!(c1, reference(true, false, m, n, k, -1, &a, k, &b, k, 2, &c0, n, true));
}

#[test]
fn each_error_is_reported_and_leaves_output_alone() {
    let a = vec![1i64; 12];
    let b = vec![1i64; 12];
    let c0 = vec![9i64; 12];
    let run = |params: Params, m: usize, n: usize, k: usize, lda: usize, ldb: usize, ldc: usize, alen: usize| {
        let mut c = c0.clone();
        let r = gemm::<_, i64, GenericKernel>(
            &DefaultExecutor, &params, false, false, false, m, n, k, 1, &a[..alen], lda, &b, ldb, 0, &mut c, ldc,
        );
        if r.is_err() {
            assert_eq!(c, c0);
        } else {
            assert_eq!(&c[..9], &[3i64; 9]);
            assert_eq!(&c[9..], &c0[9..]);
        }
        r
    };
    let bad = Params { mc: 4, kc: 0, nc: 4, mr: 2, nr: 2 };
    assert_eq!(run(bad, 3, 3, 3, 3, 3, 3, 12), Err(GemmError::InvalidParams));
    let huge = Params { mc: 4, kc: usize::MAX, nc: 4, mr: 2, nr: 2 };
    assert_eq!(run(huge, 3, 3, 3, 3, 3, 3, 12), Err(GemmError::InvalidParams));
    assert_eq!(run(small_params(), 0, 3, 3, 3, 3, 3, 12), Err(GemmError::ZeroDimension));
    assert_eq!(run(small_params(), 3, 3, 0, 3, 3, 3, 12), Err(GemmError::ZeroDimension));
    assert_eq!(run(small_params(), 3, 3, 3, 2, 3, 3, 12), Err(GemmError::StrideTooSmall));
    assert_eq!(run(small_params(), 3, 3, 3, 3, 3, 2, 12), Err(GemmError::StrideTooSmall));
    assert_eq!(run(small_params(), 3, 3, 3, 3, 3, 3, 8), Err(GemmError::BufferTooSmall));
    assert_eq!(run(small_params(), 3, 3, 3, 3, 3, 5, 12), Err(GemmError::BufferTooSmall));
    assert_eq!(run(small_params(), 3, 3, 3, 3, 3, 3, 9), Ok(()));
}

#[test]
fn packing_round_trip_reproduces_the_panel() {
    let (rows, cols) = (6usize, 5usize);
    let buf: Vec<i64> = (0..(rows * cols) as i64).map(|x| x * 3 + 1).collect();
    let a = ConstTransposedMatrix::new(0, rows);
    let (i0, k, mr) = (2usize, 4usize, 3usize);
    let pa = GenericKernel::pack_row_a(&a, &buf, i0, k, mr);
    assert_eq!(pa.len(), k * mr);
    for ii in 0..mr {
        for p in 0..k {
            assert_eq!(pa[ii + p * mr], a.get(&buf, i0 + ii, p));
            assert_eq!(pa[ii + p * mr], buf[(i0 + ii) + p * rows]);
        }
    }
    let b = ConstMatrix::new(0, cols);
    let (j0, nr) = (1usize, 4usize);
    let pb = GenericKernel::pack_row_b(&b, &buf, j0, 3, nr);
    for jj in 0..nr {
        for p in 0..3 {
            assert_eq!(pb[jj + p * nr], buf[p * cols + j0 + jj]);
        }
    }
}

#[test]
fn views_address_and_reslice() {
    assert_eq!(ConstMatrix::new(0, 2).index(1, 0), 2);
    assert_eq!(ConstTransposedMatrix::new(0, 2).index(1, 0), 1);
    assert_eq!(MutMatrix::new(0, 2).index(1, 0), 2);
    assert_eq!(MutTransposedMatrix::new(0, 2).index(1, 0), 1);
    let n = ConstMatrix::new(3, 10);
    assert_eq!(n.index(2, 4), 3 + 2 * 10 + 4);
    assert_eq!(n.row(2), 23);
    assert_eq!(n.col(4), 7);
    assert!(!n.is_transposed());
    let s = n.sub(1, 2);
    assert_eq!((s.ptr(), s.stride()), (15, 10));
    assert_eq!(s.index(1, 1), n.index(2, 3));
    assert_eq!(n.sub_row(2).ptr(), 23);
    assert_eq!(n.sub_col(4).ptr(), 7);
    let t = ConstTransposedMatrix::new(1, 8);
    assert!(t.is_transposed());
    assert_eq!(t.index(2, 3), 1 + 2 + 3 * 8);
    assert_eq!(t.row(2), 3);
    assert_eq!(t.col(3), 25);
    assert_eq!(t.sub(1, 1).index(1, 2), t.index(2, 3));
    let mut buf = vec![0i64; 40];
    let w = MutMatrix::new(0, 5);
    w.set(&mut buf, 1, 2, 7);
    assert_eq!(buf[7], 7);
    assert_eq!(w.get(&buf, 1, 2), 7);
    let wt = MutTransposedMatrix::new(0, 5);
    wt.set(&mut buf, 1, 2, 8);
    assert_eq!(buf[11], 8);
    assert_eq!(wt.get(&buf, 1, 2), 8);
}

#[test]
fn static_partition_gives_first_workers_the_remainder() {
    assert_eq!(static_partition(10, 4), vec![(0, 3), (3, 6), (6, 8), (8, 10)]);
    assert_eq!(static_partition(3, 5), vec![(0, 1), (1, 2), (2, 3), (3, 3), (3, 3)]);
    assert_eq!(static_partition(8, 4), vec![(0, 2), (2, 4), (4, 6), (6, 8)]);
    assert_eq!(static_partition(0, 2), vec![(0, 0), (0, 0)]);
}

#[test]
fn executors_hand_back_results_in_index_order() {
    let seq = DefaultExecutor.execute(2, 11, 3, |i: usize| i * 10);
    assert_eq!(seq, vec![20, 50, 80]);
    let par = RayonExecutor.execute(2, 11, 3, |i: usize| i * 10);
    assert_eq!(par, vec![20, 50, 80]);
    let many = RayonExecutor.execute(0, 1000, 1, |i: usize| i + 1);
    assert_eq!(many, (1..=1000).collect::<Vec<usize>>());
    assert!(DefaultExecutor.execute(4, 4, 2, |i: usize| i).is_empty());
    assert!(DefaultExecutor.execute(9, 3, 2, |i: usize| i).is_empty());
    assert!(RayonExecutor.execute(9, 3, 2, |i: usize| i).is_empty());
    assert_eq!(DefaultExecutor.execute(usize::MAX - 5, usize::MAX, 4, |i: usize| usize::MAX - i), vec![5, 1]);
    assert_eq!(RayonExecutor.execute(usize::MAX - 5, usize::MAX, 4, |i: usize| usize::MAX - i), vec![5, 1]);
}

#[test]
fn tuned_parameters() {
    let s = Params::single();
    assert_eq!((s.mc, s.kc, s.nc, s.mr, s.nr), (128, 256, 8192, 16, 5));
    let d = Params::double();
    assert_eq!((d.mc, d.kc, d.nc, d.mr, d.nr), (256, 512, 4096, 8, 4));
    assert!(s.is_valid() && d.is_valid());
    assert!(!Params { mc: 1, kc: 1, nc: 1, mr: 0, nr: 1 }.is_valid());
}

#[test]
fn integer_operations_wrap() {
    assert_eq!(<i64 as Number>::plus(i64::MAX, 1), i64::MIN);
    assert_eq!(<i64 as Number>::times(i64::MAX, 2), -2);
    assert_eq!(<i64 as Number>::mul_add(3, 4, 5), 17);
    assert!(<i64 as Number>::is_zero(<i64 as Number>::zero()));
}
