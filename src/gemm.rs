//! The multiplication problem: blocking sizes, validation, the value of every
//! output element, and the public entry point.
use vstd::prelude::*;
use crate::number::Number;
use crate::matrix::{ConstMatrix, ConstTransposedMatrix, MutMatrix, MutTransposedMatrix, Matrix, MatrixMut, elem, in_region, index_of};
use crate::kernel::{GemmKernel, blend, dot};
use crate::executor::{Executor, num_steps};
use crate::blocking::gemm_template;

verus! {

/// Cache-blocking and register-tile sizes: `mc`, `kc`, `nc` bound the row,
/// depth and column extent of a block; `mr x nr` is the register tile.
#[derive(Clone, Copy, Debug)]
pub struct Params {
    pub mc: usize,
    pub kc: usize,
    pub nc: usize,
    pub mr: usize,
    pub nr: usize,
}

impl Params {
    /// Every size is positive, and the packed buffers and strips that the
    /// sizes imply can be indexed.
    pub open spec fn wf(&self) -> bool {
        &&& 0 < self.mc
        &&& 0 < self.kc
        &&& 0 < self.nc
        &&& 0 < self.mr
        &&& 0 < self.nr
        &&& self.kc * self.mr <= usize::MAX
        &&& self.kc * self.nr <= usize::MAX
        &&& self.mr * self.nr <= usize::MAX
        &&& self.mc * self.nr <= usize::MAX
        &&& self.mc + self.mr <= usize::MAX
        &&& self.nc + self.nr <= usize::MAX
    }

    /// The sizes tuned for single precision.
    pub fn single() -> (r: Params)
        ensures
            r == (Params { mc: 128, kc: 256, nc: 8192, mr: 16, nr: 5 }),
            r.wf(),
    {
        Params { mc: 128, kc: 256, nc: 8192, mr: 16, nr: 5 }
    }

    /// The sizes tuned for double precision.
    pub fn double() -> (r: Params)
        ensures
            r == (Params { mc: 256, kc: 512, nc: 4096, mr: 8, nr: 4 }),
            r.wf(),
    {
        Params { mc: 256, kc: 512, nc: 4096, mr: 8, nr: 4 }
    }

    pub fn is_valid(&self) -> (r: bool)
        ensures
            r == self.wf(),
    {
        if self.mc == 0 || self.kc == 0 || self.nc == 0 || self.mr == 0 || self.nr == 0 {
            return false;
        }
        match (
            self.kc.checked_mul(self.mr),
            self.kc.checked_mul(self.nr),
            self.mr.checked_mul(self.nr),
            self.mc.checked_mul(self.nr),
            self.mc.checked_add(self.mr),
            self.nc.checked_add(self.nr),
        ) {
            (Some(_), Some(_), Some(_), Some(_), Some(_), Some(_)) => true,
            _ => false,
        }
    }
}

/// Element `(r, c)` of an operand, as a function of both indices.
pub open spec fn view_fn<F, M: Matrix>(v: M, buf: Seq<F>) -> spec_fn(int, int) -> F {
    |r: int, c: int| elem(v, buf, r, c)
}

/// Number of depth panels of width `kc` in depth `k`.
pub open spec fn num_panels(k: int, kc: int) -> int {
    num_steps(0, k, kc)
}

/// Depth of panel `t`: `kc`, or what is left of `k` for the last panel.
pub open spec fn panel_len(k: int, kc: int, t: int) -> int {
    if k - t * kc < kc {
        k - t * kc
    } else {
        kc
    }
}

/// The product of row `i` of `x` and column `j` of `y` over the depth panel
/// `p0 .. p0 + len`.
pub open spec fn panel_dot<F: Number>(
    x: spec_fn(int, int) -> F,
    y: spec_fn(int, int) -> F,
    i: int,
    j: int,
    p0: int,
    len: int,
) -> F {
    dot(|p: int| x(i, p0 + p), |p: int| y(p0 + p, j), len as nat)
}

/// Element `(i, j)` of `C`, whose value was `c0`, after the first `t` depth
/// panels of `alpha * x * y + beta * C` have been applied.
pub open spec fn accumulated<F: Number>(
    alpha: F,
    beta: F,
    x: spec_fn(int, int) -> F,
    y: spec_fn(int, int) -> F,
    k: int,
    kc: int,
    i: int,
    j: int,
    c0: F,
    t: nat,
) -> F
    decreases t,
{
    if t == 0 {
        c0
    } else {
        blend(
            alpha,
            panel_dot(x, y, i, j, (t - 1) * kc, panel_len(k, kc, t - 1)),
            beta,
            accumulated(alpha, beta, x, y, k, kc, i, j, c0, (t - 1) as nat),
            t - 1 == 0,
        )
    }
}

/// Why a multiplication was refused before any element was read.
#[derive(Clone, Copy, Debug, PartialEq, Eq)]
pub enum GemmError {
    /// A blocking or tile size is zero, or the sizes overflow an index.
    InvalidParams,
    /// `m`, `n` or `k` is zero.
    ZeroDimension,
    /// A leading dimension is smaller than the extent it must step over.
    StrideTooSmall,
    /// A buffer ends before the last element of its operand.
    BufferTooSmall,
}

/// Position of element `(r, c)` of an operand stored from position 0 of its
/// buffer with leading dimension `ld`: column-major (`r` moves by one, `c` by
/// `ld`), or row-major when `trans` holds, that is the operand transposed.
pub open spec fn storage(ld: int, trans: bool, r: int, c: int) -> int {
    if trans {
        r * ld + c
    } else {
        r + c * ld
    }
}

/// Element `(r, c)` of an operand stored from position 0 of `buf` with
/// leading dimension `ld`: column-major, or row-major when `trans` holds.
pub open spec fn operand_fn<F>(buf: Seq<F>, ld: int, trans: bool) -> spec_fn(int, int) -> F {
    |r: int, c: int| buf[storage(ld, trans, r, c)]
}

/// The leading dimension steps over a whole column (column-major) or a whole row
/// (transposed) of a `rows x cols` operand.
pub open spec fn stride_ok(ld: int, trans: bool, rows: int, cols: int) -> bool {
    if trans {
        cols <= ld
    } else {
        rows <= ld
    }
}

/// A buffer of `len` elements holds the last element of a `rows x cols`
/// operand.
pub open spec fn fits(len: int, ld: int, trans: bool, rows: int, cols: int) -> bool {
    storage(ld, trans, rows - 1, cols - 1) < len
}

/// Position `pos` belongs to an element of the `m x n` output.
pub open spec fn in_output(ldc: int, transc: bool, m: int, n: int, pos: int) -> bool {
    exists|i: int, j: int| 0 <= i < m && 0 <= j < n && pos == #[trigger] storage(ldc, transc, i, j)
}

/// The first reason, if any, to refuse a multiplication.
pub open spec fn problem_error(
    params: Params,
    transa: bool,
    transb: bool,
    transc: bool,
    m: int,
    n: int,
    k: int,
    alen: int,
    lda: int,
    blen: int,
    ldb: int,
    clen: int,
    ldc: int,
) -> Option<GemmError> {
    if !params.wf() {
        Some(GemmError::InvalidParams)
    } else if m == 0 || n == 0 || k == 0 {
        Some(GemmError::ZeroDimension)
    } else if !(stride_ok(lda, transa, m, k) && stride_ok(ldb, transb, k, n) && stride_ok(ldc, transc, m, n)) {
        Some(GemmError::StrideTooSmall)
    } else if !(fits(alen, lda, transa, m, k) && fits(blen, ldb, transb, k, n) && fits(clen, ldc, transc, m, n)) {
        Some(GemmError::BufferTooSmall)
    } else {
        None
    }
}

/// The result of a multiplication: element `(i, j)` of the output, whose
/// old value is `c0`, after every depth panel of `alpha * op(A) * op(B)`
/// has been blended in.
pub open spec fn gemm_result<F: Number>(
    params: Params,
    transa: bool,
    transb: bool,
    k: int,
    alpha: F,
    a: Seq<F>,
    lda: int,
    b: Seq<F>,
    ldb: int,
    beta: F,
    i: int,
    j: int,
    c0: F,
) -> F {
    accumulated(
        alpha,
        beta,
        operand_fn(a, lda, transa),
        operand_fn(b, ldb, transb),
        k,
        params.kc as int,
        i,
        j,
        c0,
        num_panels(k, params.kc as int) as nat,
    )
}

/// What a call of `gemm` guarantees: the outcome is refused exactly as
/// `problem_error` says, a refusal leaves `C` as it was, and a success gives
/// every output element its `gemm_result` and leaves every other position of
/// `C` as it was.
pub open spec fn gemm_post<F: Number>(
    params: Params,
    transa: bool,
    transb: bool,
    transc: bool,
    m: int,
    n: int,
    k: int,
    alpha: F,
    a: Seq<F>,
    lda: int,
    b: Seq<F>,
    ldb: int,
    beta: F,
    ldc: int,
    c_old: Seq<F>,
    c_new: Seq<F>,
    r: Result<(), GemmError>,
) -> bool {
    &&& r == match problem_error(params, transa, transb, transc, m, n, k, a.len() as int, lda, b.len() as int, ldb, c_old.len() as int, ldc) {
        Some(err) => Err::<(), GemmError>(err),
        None => Ok(()),
    }
    &&& c_new.len() == c_old.len()
    &&& r is Err ==> c_new == c_old
    &&& r is Ok ==> forall|i: int, j: int|
        0 <= i < m && 0 <= j < n ==> #[trigger] c_new[storage(ldc, transc, i, j)] == gemm_result(
            params,
            transa,
            transb,
            k,
            alpha,
            a,
            lda,
            b,
            ldb,
            beta,
            i,
            j,
            c_old[storage(ldc, transc, i, j)],
        )
    &&& r is Ok ==> forall|pos: int|
        0 <= pos < c_old.len() && !in_output(ldc, transc, m, n, pos) ==> #[trigger] c_new[pos] == c_old[pos]
}

/// Position of the last element of a `rows x cols` operand, if it fits in
/// `usize`.
fn last_index(ld: usize, trans: bool, rows: usize, cols: usize) -> (r: Option<usize>)
    requires
        0 < rows,
        0 < cols,
    ensures
        match r {
            Some(v) => v == storage(ld as int, trans, rows - 1, cols - 1),
            None => storage(ld as int, trans, rows - 1, cols - 1) > usize::MAX,
        },
{
    let (major, minor) = if trans {
        (rows - 1, cols - 1)
    } else {
        (cols - 1, rows - 1)
    };
    match major.checked_mul(ld) {
        Some(p) => p.checked_add(minor),
        None => {
            proof {
                assert(major * ld + minor >= major * ld) by (nonlinear_arith)
                    requires
                        0 <= minor,
                ;
            }
            None
        },
    }
}

fn fits_in(len: usize, ld: usize, trans: bool, rows: usize, cols: usize) -> (r: bool)
    requires
        0 < rows,
        0 < cols,
    ensures
        r == fits(len as int, ld as int, trans, rows as int, cols as int),
{
    match last_index(ld, trans, rows, cols) {
        Some(v) => v < len,
        None => false,
    }
}

fn stride_fits(ld: usize, trans: bool, rows: usize, cols: usize) -> (r: bool)
    ensures
        r == stride_ok(ld as int, trans, rows as int, cols as int),
{
    if trans {
        cols <= ld
    } else {
        rows <= ld
    }
}

/// Runs the blocked multiplication on views bound at position 0 of each
/// buffer, and restates its result over the buffers.
fn run<E: Executor, F: Number, K: GemmKernel<F>, A: Matrix, B: Matrix, C: MatrixMut>(
    e: &E,
    params: &Params,
    m: usize,
    n: usize,
    k: usize,
    alpha: F,
    av: A,
    a: &[F],
    bv: B,
    b: &[F],
    beta: F,
    cv: C,
    c: &mut Vec<F>,
    lda: usize,
    transa: bool,
    ldb: usize,
    transb: bool,
    ldc: usize,
    transc: bool,
)
    requires
        params.wf(),
        av.spec_stride() == lda,
        A::spec_transposed() == !transa,
        bv.spec_stride() == ldb,
        B::spec_transposed() == !transb,
        cv.spec_stride() == ldc,
        C::spec_transposed() == !transc,
        av.spec_base() == 0,
        bv.spec_base() == 0,
        cv.spec_base() == 0,
        0 < m,
        0 < n,
        0 < k,
        stride_ok(lda as int, transa, m as int, k as int),
        stride_ok(ldb as int, transb, k as int, n as int),
        stride_ok(ldc as int, transc, m as int, n as int),
        fits(a@.len() as int, lda as int, transa, m as int, k as int),
        fits(b@.len() as int, ldb as int, transb, k as int, n as int),
        fits(old(c)@.len() as int, ldc as int, transc, m as int, n as int),
    ensures
        final(c)@.len() == old(c)@.len(),
        forall|i: int, j: int|
            0 <= i < m && 0 <= j < n ==> #[trigger] final(c)@[storage(ldc as int, transc, i, j)]
                == gemm_result(
                *params,
                transa,
                transb,
                k as int,
                alpha,
                a@,
                lda as int,
                b@,
                ldb as int,
                beta,
                i,
                j,
                old(c)@[storage(ldc as int, transc, i, j)],
            ),
        forall|pos: int|
            0 <= pos < old(c)@.len() && !in_output(ldc as int, transc, m as int, n as int, pos)
                ==> #[trigger] final(c)@[pos] == old(c)@[pos],
{
    let ghost c0 = c@;
    gemm_template::<E, F, K, A, B, C>(e, params, m, n, k, alpha, av, a, bv, b, beta, cv, c);
    proof {
        let lda = av.spec_stride() as int;
        let ldb = bv.spec_stride() as int;
        let ldc = cv.spec_stride() as int;
        assert(view_fn(av, a@) =~= operand_fn(a@, lda, transa));
        assert(view_fn(bv, b@) =~= operand_fn(b@, ldb, transb));
        assert forall|i: int, j: int| 0 <= i < m && 0 <= j < n implies #[trigger] c@[storage(ldc, transc, i, j)]
            == gemm_result(*params, transa, transb, k as int, alpha, a@, lda, b@, ldb, beta, i, j,
            c0[storage(ldc, transc, i, j)]) by {
            assert(c@[index_of(cv, i, j)] == accumulated(
                alpha,
                beta,
                view_fn(av, a@),
                view_fn(bv, b@),
                k as int,
                params.kc as int,
                i,
                j,
                elem(cv, c0, i, j),
                num_panels(k as int, params.kc as int) as nat,
            ));
        }
        assert forall|pos: int| 0 <= pos < c0.len() && !in_output(ldc, transc, m as int, n as int, pos) implies #[trigger] c@[pos]
            == c0[pos] by {
            if in_region(cv, m as int, n as int, pos) {
                let (i, j) = choose|i: int, j: int| 0 <= i < m && 0 <= j < n && pos == #[trigger] index_of(cv, i, j);
                assert(pos == storage(ldc, transc, i, j));
            }
        }
    }
}

/// `C <- alpha * op(A) * op(B) + beta * C`, where `op(A)` is `m x k` and
/// `op(B)` is `k x n`, each stored column-major from position 0 of its buffer
/// with the given leading dimension, or row-major when its flag is set (the
/// operand transposed). `C` is `m x n`, addressed the same way by `transc`.
///
/// Refuses the problem, leaving `c` untouched, for the first of:
/// invalid blocking sizes, a zero dimension, a leading dimension too small
/// for its extent, a buffer too short for its operand. Otherwise every output
/// element receives the depth panels of `params.kc` in order: the first is
/// blended with `beta` (and the old value is not read when `beta` is zero),
/// later ones are added. No other position of `c` changes.
pub fn gemm<E: Executor, F: Number, K: GemmKernel<F>>(
    e: &E,
    params: &Params,
    transa: bool,
    transb: bool,
    transc: bool,
    m: usize,
    n: usize,
    k: usize,
    alpha: F,
    a: &[F],
    lda: usize,
    b: &[F],
    ldb: usize,
    beta: F,
    c: &mut Vec<F>,
    ldc: usize,
) -> (r: Result<(), GemmError>)
    ensures
        gemm_post(
            *params,
            transa,
            transb,
            transc,
            m as int,
            n as int,
            k as int,
            alpha,
            a@,
            lda as int,
            b@,
            ldb as int,
            beta,
            ldc as int,
            old(c)@,
            final(c)@,
            r,
        ),
{
    if !params.is_valid() {
        return Err(GemmError::InvalidParams);
    }
    if m == 0 || n == 0 || k == 0 {
        return Err(GemmError::ZeroDimension);
    }
    if !(stride_fits(lda, transa, m, k) && stride_fits(ldb, transb, k, n) && stride_fits(ldc, transc, m, n)) {
        return Err(GemmError::StrideTooSmall);
    }
    if !(fits_in(a.len(), lda, transa, m, k) && fits_in(b.len(), ldb, transb, k, n) && fits_in(c.len(), ldc, transc, m, n)) {
        return Err(GemmError::BufferTooSmall);
    }
    // A column-major operand is a transposed view, whose stride moves between
    // columns; a row-major operand is a natural view.
    match (transa, transb, transc) {
        (false, false, false) => run::<E, F, K, _, _, _>(
            e, params, m, n, k, alpha, ConstTransposedMatrix::new(0, lda), a, ConstTransposedMatrix::new(0, ldb), b, beta,
            MutTransposedMatrix::new(0, ldc), c, lda, transa, ldb, transb, ldc, transc,
        ),
        (false, false, true) => run::<E, F, K, _, _, _>(
            e, params, m, n, k, alpha, ConstTransposedMatrix::new(0, lda), a, ConstTransposedMatrix::new(0, ldb), b, beta,
            MutMatrix::new(0, ldc), c, lda, transa, ldb, transb, ldc, transc,
        ),
        (false, true, false) => run::<E, F, K, _, _, _>(
            e, params, m, n, k, alpha, ConstTransposedMatrix::new(0, lda), a, ConstMatrix::new(0, ldb), b, beta,
            MutTransposedMatrix::new(0, ldc), c, lda, transa, ldb, transb, ldc, transc,
        ),
        (false, true, true) => run::<E, F, K, _, _, _>(
            e, params, m, n, k, alpha, ConstTransposedMatrix::new(0, lda), a, ConstMatrix::new(0, ldb), b, beta,
            MutMatrix::new(0, ldc), c, lda, transa, ldb, transb, ldc, transc,
        ),
        (true, false, false) => run::<E, F, K, _, _, _>(
            e, params, m, n, k, alpha, ConstMatrix::new(0, lda), a, ConstTransposedMatrix::new(0, ldb), b, beta,
            MutTransposedMatrix::new(0, ldc), c, lda, transa, ldb, transb, ldc, transc,
        ),
        (true, false, true) => run::<E, F, K, _, _, _>(
            e, params, m, n, k, alpha, ConstMatrix::new(0, lda), a, ConstTransposedMatrix::new(0, ldb), b, beta,
            MutMatrix::new(0, ldc), c, lda, transa, ldb, transb, ldc, transc,
        ),
        (true, true, false) => run::<E, F, K, _, _, _>(
            e, params, m, n, k, alpha, ConstMatrix::new(0, lda), a, ConstMatrix::new(0, ldb), b, beta,
            MutTransposedMatrix::new(0, ldc), c, lda, transa, ldb, transb, ldc, transc,
        ),
        (true, true, true) => run::<E, F, K, _, _, _>(
            e, params, m, n, k, alpha, ConstMatrix::new(0, lda), a, ConstMatrix::new(0, ldb), b, beta,
            MutMatrix::new(0, ldc), c, lda, transa, ldb, transb, ldc, transc,
        ),
    }
    Ok(())
}

} // verus!
