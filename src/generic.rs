//! The portable microkernel.
use vstd::prelude::*;
use crate::number::Number;
use crate::matrix::{Matrix, covers, elem, index_of, lemma_covers_in_bounds};
use crate::kernel::{
    GemmKernel, GemmKernelSup, GemmKernelSupMr, GemmKernelSupNr, blend, col_step, col_stride,
    col_terms, dot, dot_strided, lemma_dot_ext, lemma_grid_bounds, lemma_view_runs, row_step,
    row_stride, row_terms, store_value, strided, view_dot,
};

verus! {

/// The portable microkernel: scalar loops for every operation, for any tile
/// shape.
pub struct GenericKernel;

/// Term `k - 1` of the run at `lane` of a buffer packed `w` to a depth index
/// lies inside a buffer of `k * w` or more elements.
proof fn lemma_packed_run(lane: int, w: int, k: int, len: int)
    requires
        0 <= lane < w,
        0 < k,
        k * w <= len,
    ensures
        lane + (k - 1) * w < len,
{
    assert((k - 1) * w + w == k * w) by (nonlinear_arith);
}

impl<F: Number> GemmKernelSup<F> for GenericKernel {
    fn sup_br<A: Matrix, B: Matrix, C: Matrix>(
        k: usize,
        alpha: F,
        a: &A,
        abuf: &[F],
        i: usize,
        b: &B,
        bbuf: &[F],
        j: usize,
        beta: F,
        c: &C,
        cbuf: &[F],
        first: bool,
    ) -> (r: F) {
        let _alen = abuf.len();
        let _blen = bbuf.len();
        let acc = view_dot(a, abuf, i, b, bbuf, j, k);
        proof {
            lemma_covers_in_bounds(*c, i + 1, j + 1, cbuf@.len() as int, i as int, j as int);
        }
        store_value(alpha, acc, beta, c, cbuf, i, j, first)
    }
}

impl<F: Number> GemmKernelSupMr<F> for GenericKernel {
    fn sup_bl<B: Matrix, C: Matrix>(
        k: usize,
        mr: usize,
        alpha: F,
        pa: &[F],
        b: &B,
        bbuf: &[F],
        j: usize,
        beta: F,
        c: &C,
        cbuf: &[F],
        i: usize,
        first: bool,
    ) -> (r: Vec<F>) {
        let _blen = bbuf.len();
        proof {
            lemma_covers_in_bounds(*b, k as int, j + 1, bbuf@.len() as int, k - 1, j as int);
            lemma_view_runs(*b, bbuf@, 0, j as int, k as nat);
        }
        let start = b.col(j);
        let step = col_stride(b);
        let mut out: Vec<F> = Vec::new();
        let mut ii: usize = 0;
        let _clen = cbuf.len();
        while ii < mr
            invariant
                cbuf@.len() <= usize::MAX,
                0 < mr,
                k * mr <= pa@.len(),
                covers(*b, k as int, j + 1, bbuf@.len() as int),
                covers(*c, i + mr, j + 1, cbuf@.len() as int),
                start == index_of(*b, 0, j as int),
                step == col_step(*b),
                start + (k - 1) * step < bbuf@.len(),
                forall|p: int|
                    #![trigger col_terms(*b, bbuf@, j as int)(p)]
                    0 <= p < k ==> col_terms(*b, bbuf@, j as int)(p) == strided(bbuf@, start as int, step as int)(p),
                ii <= mr,
                out@.len() == ii,
                forall|t: int|
                    0 <= t < ii ==> #[trigger] out@[t] == blend(
                        alpha,
                        dot(strided(pa@, t, mr as int), col_terms(*b, bbuf@, j as int), k as nat),
                        beta,
                        elem(*c, cbuf@, i + t, j as int),
                        first,
                    ),
            decreases mr - ii,
        {
            proof {
                lemma_packed_run(ii as int, mr as int, k as int, pa@.len() as int);
                lemma_covers_in_bounds(*c, i + mr, j + 1, cbuf@.len() as int, i + ii, j as int);
            }
            let acc = dot_strided(pa, ii, mr, bbuf, start, step, k);
            proof {
                lemma_dot_ext(
                    strided(pa@, ii as int, mr as int),
                    strided(bbuf@, start as int, step as int),
                    strided(pa@, ii as int, mr as int),
                    col_terms(*b, bbuf@, j as int),
                    k as nat,
                );
            }
            let v = store_value(alpha, acc, beta, c, cbuf, i + ii, j, first);
            out.push(v);
            ii = ii + 1;
        }
        out
    }
}

impl<F: Number> GemmKernelSupNr<F> for GenericKernel {
    fn sup_tr<A: Matrix, C: Matrix>(
        k: usize,
        nr: usize,
        alpha: F,
        a: &A,
        abuf: &[F],
        i: usize,
        pb: &[F],
        beta: F,
        c: &C,
        cbuf: &[F],
        j: usize,
        first: bool,
    ) -> (r: Vec<F>) {
        let _alen = abuf.len();
        proof {
            lemma_covers_in_bounds(*a, i + 1, k as int, abuf@.len() as int, i as int, k - 1);
            lemma_view_runs(*a, abuf@, i as int, 0, k as nat);
        }
        let start = a.row(i);
        let step = row_stride(a);
        let mut out: Vec<F> = Vec::new();
        let mut jj: usize = 0;
        let _clen = cbuf.len();
        while jj < nr
            invariant
                cbuf@.len() <= usize::MAX,
                0 < nr,
                k * nr <= pb@.len(),
                covers(*a, i + 1, k as int, abuf@.len() as int),
                covers(*c, i + 1, j + nr, cbuf@.len() as int),
                start == index_of(*a, i as int, 0),
                step == row_step(*a),
                start + (k - 1) * step < abuf@.len(),
                forall|p: int|
                    #![trigger row_terms(*a, abuf@, i as int)(p)]
                    0 <= p < k ==> row_terms(*a, abuf@, i as int)(p) == strided(abuf@, start as int, step as int)(p),
                jj <= nr,
                out@.len() == jj,
                forall|t: int|
                    0 <= t < jj ==> #[trigger] out@[t] == blend(
                        alpha,
                        dot(row_terms(*a, abuf@, i as int), strided(pb@, t, nr as int), k as nat),
                        beta,
                        elem(*c, cbuf@, i as int, j + t),
                        first,
                    ),
            decreases nr - jj,
        {
            proof {
                lemma_packed_run(jj as int, nr as int, k as int, pb@.len() as int);
                lemma_covers_in_bounds(*c, i + 1, j + nr, cbuf@.len() as int, i as int, j + jj);
            }
            let acc = dot_strided(abuf, start, step, pb, jj, nr, k);
            proof {
                lemma_dot_ext(
                    strided(abuf@, start as int, step as int),
                    strided(pb@, jj as int, nr as int),
                    row_terms(*a, abuf@, i as int),
                    strided(pb@, jj as int, nr as int),
                    k as nat,
                );
            }
            let v = store_value(alpha, acc, beta, c, cbuf, i, j + jj, first);
            out.push(v);
            jj = jj + 1;
        }
        out
    }
}

impl<F: Number> GemmKernel<F> for GenericKernel {
    fn pack_row_a<A: Matrix>(a: &A, abuf: &[F], i: usize, k: usize, mr: usize) -> (r: Vec<F>) {
        let total = k * mr;
        let _alen = abuf.len();
        let mut out: Vec<F> = Vec::new();
        let mut q: usize = 0;
        while q < total
            invariant
                0 < mr,
                total == k * mr,
                abuf@.len() <= usize::MAX,
                covers(*a, i + mr, k as int, abuf@.len() as int),
                q <= total,
                out@.len() == q,
                forall|t: int|
                    0 <= t < q ==> #[trigger] out@[t] == elem(*a, abuf@, i + t % (mr as int), t / (mr as int)),
            decreases total - q,
        {
            proof {
                lemma_grid_bounds(q as int, mr as int, k as int);
                lemma_covers_in_bounds(*a, i + mr, k as int, abuf@.len() as int, i + q % mr, (q / mr) as int);
            }
            let v = a.get(abuf, i + q % mr, q / mr);
            out.push(v);
            q = q + 1;
        }
        out
    }

    fn pack_row_b<B: Matrix>(b: &B, bbuf: &[F], j: usize, k: usize, nr: usize) -> (r: Vec<F>) {
        let total = k * nr;
        let _blen = bbuf.len();
        let mut out: Vec<F> = Vec::new();
        let mut q: usize = 0;
        while q < total
            invariant
                0 < nr,
                total == k * nr,
                bbuf@.len() <= usize::MAX,
                covers(*b, k as int, j + nr, bbuf@.len() as int),
                q <= total,
                out@.len() == q,
                forall|t: int|
                    0 <= t < q ==> #[trigger] out@[t] == elem(*b, bbuf@, t / (nr as int), j + t % (nr as int)),
            decreases total - q,
        {
            proof {
                lemma_grid_bounds(q as int, nr as int, k as int);
                lemma_covers_in_bounds(*b, k as int, j + nr, bbuf@.len() as int, (q / nr) as int, j + q % nr);
            }
            let v = b.get(bbuf, q / nr, j + q % nr);
            out.push(v);
            q = q + 1;
        }
        out
    }

    fn main_tl<C: Matrix>(
        k: usize,
        mr: usize,
        nr: usize,
        alpha: F,
        pa: &[F],
        pb: &[F],
        beta: F,
        c: &C,
        cbuf: &[F],
        i: usize,
        j: usize,
        first: bool,
    ) -> (r: Vec<F>) {
        let total = mr * nr;
        let _clen = cbuf.len();
        let mut out: Vec<F> = Vec::new();
        let mut q: usize = 0;
        while q < total
            invariant
                0 < mr,
                0 < nr,
                total == mr * nr,
                k * mr <= pa@.len(),
                k * nr <= pb@.len(),
                cbuf@.len() <= usize::MAX,
                covers(*c, i + mr, j + nr, cbuf@.len() as int),
                q <= total,
                out@.len() == q,
                forall|t: int|
                    0 <= t < q ==> #[trigger] out@[t] == blend(
                        alpha,
                        dot(
                            strided(pa@, t / (nr as int), mr as int),
                            strided(pb@, t % (nr as int), nr as int),
                            k as nat,
                        ),
                        beta,
                        elem(*c, cbuf@, i + t / (nr as int), j + t % (nr as int)),
                        first,
                    ),
            decreases total - q,
        {
            proof {
                lemma_grid_bounds(q as int, nr as int, mr as int);
                lemma_covers_in_bounds(*c, i + mr, j + nr, cbuf@.len() as int, i + q / nr, j + q % nr);
            }
            let ii = q / nr;
            let jj = q % nr;
            let acc = if k == 0 {
                F::zero()
            } else {
                proof {
                    lemma_packed_run(ii as int, mr as int, k as int, pa@.len() as int);
                    lemma_packed_run(jj as int, nr as int, k as int, pb@.len() as int);
                }
                dot_strided(pa, ii, mr, pb, jj, nr, k)
            };
            let v = store_value(alpha, acc, beta, c, cbuf, i + ii, j + jj, first);
            out.push(v);
            q = q + 1;
        }
        out
    }
}

} // verus!
