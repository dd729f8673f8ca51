//! The microkernel interface: packing, the register tile, the edge kernels,
//! and the inner product that every one of them computes.
use vstd::prelude::*;
use crate::number::Number;
use crate::matrix::{Matrix, covers, elem, index_of, lemma_covers_in_bounds};
use vstd::arithmetic::div_mod::lemma_fundamental_div_mod_converse;

verus! {

/// The inner product of the first `n` terms of `x` and `y`, accumulated from
/// zero in increasing index order with `mul_add`.
pub open spec fn dot<F: Number>(x: spec_fn(int) -> F, y: spec_fn(int) -> F, n: nat) -> F
    decreases n,
{
    if n == 0 {
        F::spec_zero()
    } else {
        F::spec_mul_add(x(n - 1), y(n - 1), dot(x, y, (n - 1) as nat))
    }
}

/// The value stored into an element of `C` whose old value is `c`, given the
/// accumulated product `acc` of one panel of the depth dimension. The first
/// panel scales the old value by `beta`, and does not read it at all when
/// `beta` is zero; later panels add onto what the earlier ones stored.
pub open spec fn blend<F: Number>(alpha: F, acc: F, beta: F, c: F, first: bool) -> F {
    if first {
        if F::spec_is_zero(beta) {
            F::spec_times(alpha, acc)
        } else {
            F::spec_plus(F::spec_times(alpha, acc), F::spec_times(beta, c))
        }
    } else {
        F::spec_plus(F::spec_times(alpha, acc), c)
    }
}

/// Terms that agree on the first `n` indices give the same inner product.
pub proof fn lemma_dot_ext<F: Number>(
    x1: spec_fn(int) -> F,
    y1: spec_fn(int) -> F,
    x2: spec_fn(int) -> F,
    y2: spec_fn(int) -> F,
    n: nat,
)
    requires
        forall|p: int| 0 <= p < n ==> #[trigger] x1(p) == x2(p) && y1(p) == y2(p),
    ensures
        dot(x1, y1, n) == dot(x2, y2, n),
    decreases n,
{
    if n > 0 {
        lemma_dot_ext(x1, y1, x2, y2, (n - 1) as nat);
    }
}

/// Term `p` of a run that starts at `off` and advances by `step`.
pub open spec fn strided<F>(buf: Seq<F>, off: int, step: int) -> spec_fn(int) -> F {
    |p: int| buf[off + p * step]
}

/// Row `i` of view `v` as a sequence of terms.
pub open spec fn row_terms<F, M: Matrix>(v: M, buf: Seq<F>, i: int) -> spec_fn(int) -> F {
    |p: int| elem(v, buf, i, p)
}

/// Column `j` of view `v` as a sequence of terms.
pub open spec fn col_terms<F, M: Matrix>(v: M, buf: Seq<F>, j: int) -> spec_fn(int) -> F {
    |p: int| elem(v, buf, p, j)
}

proof fn lemma_run_in_bounds(off: int, step: int, p: int, n: int, len: int)
    requires
        0 <= off,
        0 <= step,
        0 <= p < n,
        off + (n - 1) * step < len,
    ensures
        0 <= off + p * step <= off + (n - 1) * step < len,
{
    assert(0 <= p * step <= (n - 1) * step) by (nonlinear_arith)
        requires
            0 <= p < n,
            0 <= step,
    ;
}

/// The inner product of two strided runs of `n` terms.
pub fn dot_strided<F: Number>(
    x: &[F],
    xoff: usize,
    xstep: usize,
    y: &[F],
    yoff: usize,
    ystep: usize,
    n: usize,
) -> (r: F)
    requires
        n > 0 ==> xoff + (n - 1) * xstep < x@.len(),
        n > 0 ==> yoff + (n - 1) * ystep < y@.len(),
    ensures
        r == dot(strided(x@, xoff as int, xstep as int), strided(y@, yoff as int, ystep as int), n as nat),
{
    let ghost xs = strided(x@, xoff as int, xstep as int);
    let ghost ys = strided(y@, yoff as int, ystep as int);
    let mut acc = F::zero();
    let mut p: usize = 0;
    let mut xi: usize = xoff;
    let mut yi: usize = yoff;
    let _xlen = x.len();
    let _ylen = y.len();
    while p < n
        invariant
            p <= n,
            n > 0 ==> xoff + (n - 1) * xstep < x@.len(),
            n > 0 ==> yoff + (n - 1) * ystep < y@.len(),
            p < n ==> xi == xoff + p * xstep,
            p < n ==> yi == yoff + p * ystep,
            xs == strided(x@, xoff as int, xstep as int),
            ys == strided(y@, yoff as int, ystep as int),
            acc == dot(xs, ys, p as nat),
        decreases n - p,
    {
        proof {
            lemma_run_in_bounds(xoff as int, xstep as int, p as int, n as int, x@.len() as int);
            lemma_run_in_bounds(yoff as int, ystep as int, p as int, n as int, y@.len() as int);
        }
        assert(xs(p as int) == x@[xi as int]);
        assert(ys(p as int) == y@[yi as int]);
        acc = F::mul_add(x[xi], y[yi], acc);
        p = p + 1;
        assert(acc == dot(xs, ys, p as nat));
        if p < n {
            proof {
                lemma_run_in_bounds(xoff as int, xstep as int, p as int, n as int, x@.len() as int);
                lemma_run_in_bounds(yoff as int, ystep as int, p as int, n as int, y@.len() as int);
                assert(xoff + p * xstep == xi + xstep) by (nonlinear_arith)
                    requires
                        xi == xoff + (p - 1) * xstep,
                ;
                assert(yoff + p * ystep == yi + ystep) by (nonlinear_arith)
                    requires
                        yi == yoff + (p - 1) * ystep,
                ;
            }
            xi = xi + xstep;
            yi = yi + ystep;
        }
    }
    acc
}

/// Step between consecutive elements of a row of `v`.
pub open spec fn row_step<M: Matrix>(v: M) -> int {
    if M::spec_transposed() {
        v.spec_stride() as int
    } else {
        1
    }
}

/// Step between consecutive elements of a column of `v`.
pub open spec fn col_step<M: Matrix>(v: M) -> int {
    if M::spec_transposed() {
        1
    } else {
        v.spec_stride() as int
    }
}

/// A row of a view is a strided run of its buffer, and so is a column.
pub proof fn lemma_view_runs<F, M: Matrix>(v: M, buf: Seq<F>, i: int, j: int, n: nat)
    ensures
        forall|p: int|
            #![trigger row_terms(v, buf, i)(p)]
            0 <= p < n ==> row_terms(v, buf, i)(p) == strided(buf, index_of(v, i, 0), row_step(v))(p),
        forall|p: int|
            #![trigger col_terms(v, buf, j)(p)]
            0 <= p < n ==> col_terms(v, buf, j)(p) == strided(buf, index_of(v, 0, j), col_step(v))(p),
{
}

/// Splits `q` into the quotient and remainder of a division by `w`.
pub proof fn lemma_grid(q: int, w: int, hi: int, lo: int)
    requires
        0 < w,
        0 <= lo < w,
        q == hi * w + lo,
    ensures
        q / w == hi,
        q % w == lo,
{
    lemma_fundamental_div_mod_converse(q, w, hi, lo);
}

pub proof fn lemma_grid_bounds(q: int, w: int, n: int)
    requires
        0 < w,
        0 <= q < n * w,
    ensures
        0 <= q / w < n,
        0 <= q % w < w,
{
    assert(0 <= q / w < n && 0 <= q % w < w) by (nonlinear_arith)
        requires
            0 < w,
            0 <= q < n * w,
    ;
}

pub fn row_stride<M: Matrix>(v: &M) -> (r: usize)
    ensures
        r == row_step(*v),
{
    if v.is_transposed() {
        v.stride()
    } else {
        1
    }
}

pub fn col_stride<M: Matrix>(v: &M) -> (r: usize)
    ensures
        r == col_step(*v),
{
    if v.is_transposed() {
        1
    } else {
        v.stride()
    }
}

/// The new value of element `(i, j)` of `c` for the accumulated product
/// `acc`; the old value is read only when `blend` needs it.
pub fn store_value<F: Number, C: Matrix>(
    alpha: F,
    acc: F,
    beta: F,
    c: &C,
    cbuf: &[F],
    i: usize,
    j: usize,
    first: bool,
) -> (r: F)
    requires
        0 <= index_of(*c, i as int, j as int) < cbuf@.len(),
    ensures
        r == blend(alpha, acc, beta, elem(*c, cbuf@, i as int, j as int), first),
{
    let scaled = F::times(alpha, acc);
    if first {
        if F::is_zero(beta) {
            scaled
        } else {
            F::plus(scaled, F::times(beta, c.get(cbuf, i, j)))
        }
    } else {
        F::plus(scaled, c.get(cbuf, i, j))
    }
}

/// Inner product of row `i` of `a` with column `j` of `b` over `k` terms.
pub fn view_dot<F: Number, A: Matrix, B: Matrix>(
    a: &A,
    abuf: &[F],
    i: usize,
    b: &B,
    bbuf: &[F],
    j: usize,
    k: usize,
) -> (r: F)
    requires
        covers(*a, i + 1, k as int, abuf@.len() as int),
        covers(*b, k as int, j + 1, bbuf@.len() as int),
    ensures
        r == dot(row_terms(*a, abuf@, i as int), col_terms(*b, bbuf@, j as int), k as nat),
{
    proof {
        lemma_covers_in_bounds(*a, i + 1, k as int, abuf@.len() as int, i as int, k - 1);
        lemma_covers_in_bounds(*b, k as int, j + 1, bbuf@.len() as int, k - 1, j as int);
        lemma_view_runs(*a, abuf@, i as int, 0, k as nat);
        lemma_view_runs(*b, bbuf@, 0, j as int, k as nat);
    }
    let _alen = abuf.len();
    let _blen = bbuf.len();
    let r = dot_strided(abuf, a.row(i), row_stride(a), bbuf, b.col(j), col_stride(b), k);
    proof {
        lemma_dot_ext(
            strided(abuf@, index_of(*a, i as int, 0), row_step(*a)),
            strided(bbuf@, index_of(*b, 0, j as int), col_step(*b)),
            row_terms(*a, abuf@, i as int),
            col_terms(*b, bbuf@, j as int),
            k as nat,
        );
    }
    r
}

/// Computes the single element of the corner where both the row and the
/// column extent are smaller than a register tile.
pub trait GemmKernelSup<F: Number> {
    fn sup_br<A: Matrix, B: Matrix, C: Matrix>(
        k: usize,
        alpha: F,
        a: &A,
        abuf: &[F],
        i: usize,
        b: &B,
        bbuf: &[F],
        j: usize,
        beta: F,
        c: &C,
        cbuf: &[F],
        first: bool,
    ) -> (r: F)
        requires
            covers(*a, i + 1, k as int, abuf@.len() as int),
            covers(*b, k as int, j + 1, bbuf@.len() as int),
            covers(*c, i + 1, j + 1, cbuf@.len() as int),
        ensures
            r == blend(
                alpha,
                dot(row_terms(*a, abuf@, i as int), col_terms(*b, bbuf@, j as int), k as nat),
                beta,
                elem(*c, cbuf@, i as int, j as int),
                first,
            ),
    ;
}

/// Computes a column of `mr` elements from a packed row group of `A` and an
/// unpacked column of `B`: the strip left over when the column extent is not a
/// multiple of the register tile.
pub trait GemmKernelSupMr<F: Number> {
    fn sup_bl<B: Matrix, C: Matrix>(
        k: usize,
        mr: usize,
        alpha: F,
        pa: &[F],
        b: &B,
        bbuf: &[F],
        j: usize,
        beta: F,
        c: &C,
        cbuf: &[F],
        i: usize,
        first: bool,
    ) -> (r: Vec<F>)
        requires
            0 < mr,
            k * mr <= pa@.len(),
            covers(*b, k as int, j + 1, bbuf@.len() as int),
            covers(*c, i + mr, j + 1, cbuf@.len() as int),
        ensures
            r@.len() == mr,
            forall|ii: int|
                0 <= ii < mr ==> #[trigger] r@[ii] == blend(
                    alpha,
                    dot(strided(pa@, ii, mr as int), col_terms(*b, bbuf@, j as int), k as nat),
                    beta,
                    elem(*c, cbuf@, i + ii, j as int),
                    first,
                ),
    ;
}

/// Computes a row of `nr` elements from an unpacked row of `A` and a packed
/// column group of `B`: the strip left over when the row extent is not a
/// multiple of the register tile.
pub trait GemmKernelSupNr<F: Number> {
    fn sup_tr<A: Matrix, C: Matrix>(
        k: usize,
        nr: usize,
        alpha: F,
        a: &A,
        abuf: &[F],
        i: usize,
        pb: &[F],
        beta: F,
        c: &C,
        cbuf: &[F],
        j: usize,
        first: bool,
    ) -> (r: Vec<F>)
        requires
            0 < nr,
            k * nr <= pb@.len(),
            covers(*a, i + 1, k as int, abuf@.len() as int),
            covers(*c, i + 1, j + nr, cbuf@.len() as int),
        ensures
            r@.len() == nr,
            forall|jj: int|
                0 <= jj < nr ==> #[trigger] r@[jj] == blend(
                    alpha,
                    dot(row_terms(*a, abuf@, i as int), strided(pb@, jj, nr as int), k as nat),
                    beta,
                    elem(*c, cbuf@, i as int, j + jj),
                    first,
                ),
    ;
}

/// A microkernel strategy: packing of row groups of `A` and column groups of
/// `B`, the `mr x nr` register tile, and the three edge kernels.
///
/// A packed row group of `A` holds, for each depth index `p`, the `mr`
/// elements of column `p` of the group; a packed column group of `B` holds,
/// for each `p`, the `nr` elements of row `p` of the group.
pub trait GemmKernel<F: Number>: GemmKernelSupMr<F> + GemmKernelSupNr<F> + GemmKernelSup<F> {
    fn pack_row_a<A: Matrix>(a: &A, abuf: &[F], i: usize, k: usize, mr: usize) -> (r: Vec<F>)
        requires
            0 < mr,
            k * mr <= usize::MAX,
            covers(*a, i + mr, k as int, abuf@.len() as int),
        ensures
            r@.len() == k * mr,
            forall|q: int|
                0 <= q < k * mr ==> #[trigger] r@[q] == elem(*a, abuf@, i + q % (mr as int), q / (mr as int)),
    ;

    fn pack_row_b<B: Matrix>(b: &B, bbuf: &[F], j: usize, k: usize, nr: usize) -> (r: Vec<F>)
        requires
            0 < nr,
            k * nr <= usize::MAX,
            covers(*b, k as int, j + nr, bbuf@.len() as int),
        ensures
            r@.len() == k * nr,
            forall|q: int|
                0 <= q < k * nr ==> #[trigger] r@[q] == elem(*b, bbuf@, q / (nr as int), j + q % (nr as int)),
    ;

    /// The `mr x nr` tile, row by row.
    fn main_tl<C: Matrix>(
        k: usize,
        mr: usize,
        nr: usize,
        alpha: F,
        pa: &[F],
        pb: &[F],
        beta: F,
        c: &C,
        cbuf: &[F],
        i: usize,
        j: usize,
        first: bool,
    ) -> (r: Vec<F>)
        requires
            0 < mr,
            0 < nr,
            mr * nr <= usize::MAX,
            k * mr <= pa@.len(),
            k * nr <= pb@.len(),
            covers(*c, i + mr, j + nr, cbuf@.len() as int),
        ensures
            r@.len() == mr * nr,
            forall|q: int|
                0 <= q < mr * nr ==> #[trigger] r@[q] == blend(
                    alpha,
                    dot(
                        strided(pa@, q / (nr as int), mr as int),
                        strided(pb@, q % (nr as int), nr as int),
                        k as nat,
                    ),
                    beta,
                    elem(*c, cbuf@, i + q / (nr as int), j + q % (nr as int)),
                    first,
                ),
    ;
}

} // verus!
