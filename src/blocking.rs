//! The blocking loop nest: column, depth and row panels, packing through the
//! executor, and the write-back of each block.
use vstd::prelude::*;
use crate::number::Number;
use crate::matrix::{
    Matrix, MatrixMut, covers, elem, in_region, index_of, lemma_covers_in_bounds, lemma_covers_injective,
    lemma_covers_shrink, lemma_sub_covers, lemma_sub_index,
};
use crate::kernel::{GemmKernel, blend, col_terms, dot, lemma_dot_ext, lemma_grid, lemma_grid_bounds, row_terms, strided};
use crate::executor::{Executor, lemma_num_steps_next, num_steps};
use crate::gemm::{Params, accumulated, num_panels, panel_len, view_fn};

verus! {

/// `pa` is row group `i0 .. i0 + mr` of `a` over depth `k`, packed.
pub open spec fn packed_a<F, A: Matrix>(pa: Seq<F>, a: A, abuf: Seq<F>, i0: int, k: int, mr: int) -> bool {
    &&& pa.len() == k * mr
    &&& forall|q: int| 0 <= q < k * mr ==> #[trigger] pa[q] == elem(a, abuf, i0 + q % mr, q / mr)
}

/// `pb` is column group `j0 .. j0 + nr` of `b` over depth `k`, packed.
pub open spec fn packed_b<F, B: Matrix>(pb: Seq<F>, b: B, bbuf: Seq<F>, j0: int, k: int, nr: int) -> bool {
    &&& pb.len() == k * nr
    &&& forall|q: int| 0 <= q < k * nr ==> #[trigger] pb[q] == elem(b, bbuf, q / nr, j0 + q % nr)
}

/// `pas` holds the first `count` row groups of `a`, each packed.
pub open spec fn packed_rows<F, A: Matrix>(pas: Seq<Vec<F>>, a: A, abuf: Seq<F>, k: int, mr: int, count: int) -> bool {
    &&& pas.len() == count
    &&& forall|g: int| 0 <= g < count ==> packed_a(#[trigger] pas[g]@, a, abuf, g * mr, k, mr)
}

/// `pbs` holds the first `count` column groups of `b`, each packed.
pub open spec fn packed_cols<F, B: Matrix>(pbs: Seq<Vec<F>>, b: B, bbuf: Seq<F>, k: int, nr: int, count: int) -> bool {
    &&& pbs.len() == count
    &&& forall|t: int| 0 <= t < count ==> packed_b(#[trigger] pbs[t]@, b, bbuf, t * nr, k, nr)
}

/// The new value of element `(i, j)` of a block: the product of row `i` of
/// `a` and column `j` of `b` over depth `k`, blended into the old value.
pub open spec fn block_value<F: Number, A: Matrix, B: Matrix, C: Matrix>(
    alpha: F,
    beta: F,
    a: A,
    abuf: Seq<F>,
    b: B,
    bbuf: Seq<F>,
    c: C,
    cbuf: Seq<F>,
    k: int,
    first: bool,
    i: int,
    j: int,
) -> F {
    blend(alpha, dot(row_terms(a, abuf, i), col_terms(b, bbuf, j), k as nat), beta, elem(c, cbuf, i, j), first)
}

/// A lane of a packed row group is the matching row of `a`.
proof fn lemma_packed_a_lane<F: Number, A: Matrix>(
    pa: Seq<F>,
    a: A,
    abuf: Seq<F>,
    i0: int,
    k: int,
    mr: int,
    ii: int,
    y: spec_fn(int) -> F,
)
    requires
        0 < mr,
        0 <= k,
        0 <= ii < mr,
        packed_a(pa, a, abuf, i0, k, mr),
    ensures
        dot(strided(pa, ii, mr), y, k as nat) == dot(row_terms(a, abuf, i0 + ii), y, k as nat),
{
    assert forall|p: int| 0 <= p < k implies #[trigger] strided(pa, ii, mr)(p) == row_terms(a, abuf, i0 + ii)(p) by {
        lemma_grid(ii + p * mr, mr, p, ii);
        assert(ii + p * mr < k * mr) by (nonlinear_arith)
            requires
                0 <= ii < mr,
                0 <= p < k,
        ;
        assert(pa[ii + p * mr] == elem(a, abuf, i0 + ii, p));
    }
    lemma_dot_ext(strided(pa, ii, mr), y, row_terms(a, abuf, i0 + ii), y, k as nat);
}

/// A lane of a packed column group is the matching column of `b`.
proof fn lemma_packed_b_lane<F: Number, B: Matrix>(
    pb: Seq<F>,
    b: B,
    bbuf: Seq<F>,
    j0: int,
    k: int,
    nr: int,
    jj: int,
    x: spec_fn(int) -> F,
)
    requires
        0 < nr,
        0 <= k,
        0 <= jj < nr,
        packed_b(pb, b, bbuf, j0, k, nr),
    ensures
        dot(x, strided(pb, jj, nr), k as nat) == dot(x, col_terms(b, bbuf, j0 + jj), k as nat),
{
    assert forall|p: int| 0 <= p < k implies #[trigger] strided(pb, jj, nr)(p) == col_terms(b, bbuf, j0 + jj)(p) by {
        lemma_grid(jj + p * nr, nr, p, jj);
        assert(jj + p * nr < k * nr) by (nonlinear_arith)
            requires
                0 <= jj < nr,
                0 <= p < k,
        ;
        assert(pb[jj + p * nr] == elem(b, bbuf, p, j0 + jj));
    }
    lemma_dot_ext(x, strided(pb, jj, nr), x, col_terms(b, bbuf, j0 + jj), k as nat);
}

/// Position `base * w + t` of a row-major grid of width `w` is row
/// `base + t / w`, column `t % w`.
proof fn lemma_append_index(base: int, t: int, w: int)
    requires
        0 < w,
        0 <= t,
    ensures
        (base * w + t) / w == base + t / w,
        (base * w + t) % w == t % w,
{
    vstd::arithmetic::div_mod::lemma_fundamental_div_mod(t, w);
    assert(base * w + t == (base + t / w) * w + t % w) by (nonlinear_arith)
        requires
            t == w * (t / w) + t % w,
    ;
    lemma_grid(base * w + t, w, base + t / w, t % w);
}

/// The new values of the `mb x nr` strip of columns `j0 .. j0 + nr`, row by
/// row: register tiles over the row groups, then the rows left over.
fn column_group<F: Number, K: GemmKernel<F>, A: Matrix, B: Matrix, C: Matrix>(
    kb: usize,
    mr: usize,
    nr: usize,
    mb: usize,
    alpha: F,
    beta: F,
    a: &A,
    abuf: &[F],
    b: &B,
    bbuf: &[F],
    c: &C,
    cbuf: &[F],
    pas: &Vec<Vec<F>>,
    pb: &Vec<F>,
    j0: usize,
    first: bool,
) -> (r: Vec<F>)
    requires
        0 < mr,
        0 < nr,
        0 < kb,
        0 < mb,
        kb * mr <= usize::MAX,
        kb * nr <= usize::MAX,
        mr * nr <= usize::MAX,
        mb * nr <= usize::MAX,
        covers(*a, mb as int, kb as int, abuf@.len() as int),
        covers(*b, kb as int, j0 + nr, bbuf@.len() as int),
        covers(*c, mb as int, j0 + nr, cbuf@.len() as int),
        packed_rows(pas@, *a, abuf@, kb as int, mr as int, (mb / mr) as int),
        packed_b(pb@, *b, bbuf@, j0 as int, kb as int, nr as int),
    ensures
        r@.len() == mb * nr,
        forall|q: int|
            0 <= q < mb * nr ==> #[trigger] r@[q] == block_value(
                alpha,
                beta,
                *a,
                abuf@,
                *b,
                bbuf@,
                *c,
                cbuf@,
                kb as int,
                first,
                q / (nr as int),
                j0 + q % (nr as int),
            ),
{
    let groups = mb / mr;
    let mut out: Vec<F> = Vec::new();
    let mut g: usize = 0;
    proof {
        assert(g * mr * nr == 0) by (nonlinear_arith)
            requires
                g == 0,
        ;
        assert(groups * mr <= mb) by (nonlinear_arith)
            requires
                groups == mb / mr,
                0 < mr,
        ;
    }
    while g < groups
        invariant
            0 < mr,
            0 < nr,
            0 < kb,
            kb * mr <= usize::MAX,
            kb * nr <= usize::MAX,
            mr * nr <= usize::MAX,
            mb * nr <= usize::MAX,
            groups == mb / mr,
            groups * mr <= mb,
            covers(*c, mb as int, j0 + nr, cbuf@.len() as int),
            packed_rows(pas@, *a, abuf@, kb as int, mr as int, (mb / mr) as int),
            packed_b(pb@, *b, bbuf@, j0 as int, kb as int, nr as int),
            g <= groups,
            out@.len() == g * mr * nr,
            forall|q: int| 0 <= q < out@.len() ==> #[trigger] out@[q] == block_value(alpha, beta, *a, abuf@, *b, bbuf@, *c, cbuf@, kb as int, first, q / (nr as int), j0 + q % (nr as int)),
        decreases groups - g,
    {
        proof {
            assert((g + 1) * mr <= mb) by (nonlinear_arith)
                requires
                    g < groups,
                    groups * mr <= mb,
                    0 < mr,
            ;
            assert(g * mr + mr == (g + 1) * mr) by (nonlinear_arith);
            lemma_covers_shrink(*c, mb as int, j0 + nr, cbuf@.len() as int, g * mr + mr, j0 + nr);
            assert(packed_a(pas@[g as int]@, *a, abuf@, g * mr, kb as int, mr as int));
        }
        let tile = K::main_tl(kb, mr, nr, alpha, pas[g].as_slice(), pb.as_slice(), beta, c, cbuf, g * mr, j0, first);
        let tn = mr * nr;
        let mut t: usize = 0;
        let ghost row0 = (g * mr) as int;
        while t < tn
            invariant
                0 < mr,
                0 < nr,
                0 < kb,
                tn == mr * nr,
                g < groups,
                row0 == g * mr,
                (g + 1) * mr <= mb,
                mb * nr <= usize::MAX,
                tile@.len() == mr * nr,
                packed_a(pas@[g as int]@, *a, abuf@, row0, kb as int, mr as int),
                packed_b(pb@, *b, bbuf@, j0 as int, kb as int, nr as int),
                forall|q: int|
                    0 <= q < mr * nr ==> #[trigger] tile@[q] == blend(
                        alpha,
                        dot(
                            strided(pas@[g as int]@, q / (nr as int), mr as int),
                            strided(pb@, q % (nr as int), nr as int),
                            kb as nat,
                        ),
                        beta,
                        elem(*c, cbuf@, row0 + q / (nr as int), j0 + q % (nr as int)),
                        first,
                    ),
                t <= tn,
                out@.len() == row0 * nr + t,
                forall|q: int| 0 <= q < out@.len() ==> #[trigger] out@[q] == block_value(alpha, beta, *a, abuf@, *b, bbuf@, *c, cbuf@, kb as int, first, q / (nr as int), j0 + q % (nr as int)),
            decreases tn - t,
        {
            proof {
                let q: int = row0 * (nr as int) + (t as int);
                lemma_append_index(row0, t as int, nr as int);
                lemma_grid_bounds(t as int, nr as int, mr as int);
                let ii: int = (t as int) / (nr as int);
                let jj: int = (t as int) % (nr as int);
                lemma_packed_a_lane(pas@[g as int]@, *a, abuf@, row0, kb as int, mr as int, ii, strided(pb@, jj, nr as int));
                lemma_packed_b_lane(pb@, *b, bbuf@, j0 as int, kb as int, nr as int, jj, row_terms(*a, abuf@, row0 + ii));
                assert(tile@[t as int] == block_value(alpha, beta, *a, abuf@, *b, bbuf@, *c, cbuf@, kb as int, first, q / (nr as int), j0 + q % (nr as int)));
            }
            out.push(tile[t]);
            t = t + 1;
        }
        proof {
            assert(row0 * nr + tn == (g + 1) * mr * nr) by (nonlinear_arith)
                requires
                    row0 == g * mr,
                    tn == mr * nr,
            ;
        }
        g = g + 1;
    }
    let mut i: usize = groups * mr;
    proof {
        assert(g * mr * nr == i * nr) by (nonlinear_arith)
            requires
                i == g * mr,
        ;
    }
    while i < mb
        invariant
            0 < nr,
            0 < kb,
            kb * nr <= usize::MAX,
            mb * nr <= usize::MAX,
            i <= mb,
            covers(*a, mb as int, kb as int, abuf@.len() as int),
            covers(*c, mb as int, j0 + nr, cbuf@.len() as int),
            packed_b(pb@, *b, bbuf@, j0 as int, kb as int, nr as int),
            out@.len() == i * nr,
            forall|q: int| 0 <= q < out@.len() ==> #[trigger] out@[q] == block_value(alpha, beta, *a, abuf@, *b, bbuf@, *c, cbuf@, kb as int, first, q / (nr as int), j0 + q % (nr as int)),
        decreases mb - i,
    {
        proof {
            lemma_covers_shrink(*a, mb as int, kb as int, abuf@.len() as int, i + 1, kb as int);
            lemma_covers_shrink(*c, mb as int, j0 + nr, cbuf@.len() as int, i + 1, j0 + nr);
        }
        let row = K::sup_tr(kb, nr, alpha, a, abuf, i, pb.as_slice(), beta, c, cbuf, j0, first);
        let mut jj: usize = 0;
        while jj < nr
            invariant
                0 < nr,
                0 < kb,
                i < mb,
                mb * nr <= usize::MAX,
                row@.len() == nr,
                packed_b(pb@, *b, bbuf@, j0 as int, kb as int, nr as int),
                forall|t: int|
                    0 <= t < nr ==> #[trigger] row@[t] == blend(
                        alpha,
                        dot(row_terms(*a, abuf@, i as int), strided(pb@, t, nr as int), kb as nat),
                        beta,
                        elem(*c, cbuf@, i as int, j0 + t),
                        first,
                    ),
                jj <= nr,
                out@.len() == i * nr + jj,
                forall|q: int| 0 <= q < out@.len() ==> #[trigger] out@[q] == block_value(alpha, beta, *a, abuf@, *b, bbuf@, *c, cbuf@, kb as int, first, q / (nr as int), j0 + q % (nr as int)),
            decreases nr - jj,
        {
            proof {
                lemma_grid(i * nr + jj, nr as int, i as int, jj as int);
                lemma_packed_b_lane(pb@, *b, bbuf@, j0 as int, kb as int, nr as int, jj as int, row_terms(*a, abuf@, i as int));
                let q: int = i * nr + jj;
                assert(row@[jj as int] == block_value(alpha, beta, *a, abuf@, *b, bbuf@, *c, cbuf@, kb as int, first, q / (nr as int), j0 + q % (nr as int)));
            }
            out.push(row[jj]);
            jj = jj + 1;
        }
        proof {
            assert(i * nr + nr == (i + 1) * nr) by (nonlinear_arith);
        }
        i = i + 1;
    }
    out
}

/// The new values of column `j`, row by row: a strip for each row group,
/// then the corner elements of the rows left over.
fn column_rest<F: Number, K: GemmKernel<F>, A: Matrix, B: Matrix, C: Matrix>(
    kb: usize,
    mr: usize,
    mb: usize,
    alpha: F,
    beta: F,
    a: &A,
    abuf: &[F],
    b: &B,
    bbuf: &[F],
    c: &C,
    cbuf: &[F],
    pas: &Vec<Vec<F>>,
    j: usize,
    first: bool,
) -> (r: Vec<F>)
    requires
        0 < mr,
        0 < kb,
        0 < mb,
        kb * mr <= usize::MAX,
        covers(*a, mb as int, kb as int, abuf@.len() as int),
        covers(*b, kb as int, j + 1, bbuf@.len() as int),
        covers(*c, mb as int, j + 1, cbuf@.len() as int),
        packed_rows(pas@, *a, abuf@, kb as int, mr as int, (mb / mr) as int),
    ensures
        r@.len() == mb,
        forall|i: int|
            0 <= i < mb ==> #[trigger] r@[i] == block_value(
                alpha,
                beta,
                *a,
                abuf@,
                *b,
                bbuf@,
                *c,
                cbuf@,
                kb as int,
                first,
                i,
                j as int,
            ),
{
    let groups = mb / mr;
    let mut out: Vec<F> = Vec::new();
    let mut g: usize = 0;
    proof {
        assert(groups * mr <= mb) by (nonlinear_arith)
            requires
                groups == mb / mr,
                0 < mr,
        ;
    }
    while g < groups
        invariant
            0 < mr,
            0 < kb,
            kb * mr <= usize::MAX,
            groups == mb / mr,
            groups * mr <= mb,
            covers(*b, kb as int, j + 1, bbuf@.len() as int),
            covers(*c, mb as int, j + 1, cbuf@.len() as int),
            packed_rows(pas@, *a, abuf@, kb as int, mr as int, (mb / mr) as int),
            g <= groups,
            out@.len() == g * mr,
            forall|i: int|
                0 <= i < out@.len() ==> #[trigger] out@[i] == block_value(
                    alpha,
                    beta,
                    *a,
                    abuf@,
                    *b,
                    bbuf@,
                    *c,
                    cbuf@,
                    kb as int,
                    first,
                    i,
                    j as int,
                ),
        decreases groups - g,
    {
        proof {
            assert((g + 1) * mr <= mb) by (nonlinear_arith)
                requires
                    g < groups,
                    groups * mr <= mb,
                    0 < mr,
            ;
            assert(g * mr + mr == (g + 1) * mr) by (nonlinear_arith);
            lemma_covers_shrink(*c, mb as int, j + 1, cbuf@.len() as int, g * mr + mr, j + 1);
            assert(packed_a(pas@[g as int]@, *a, abuf@, g * mr, kb as int, mr as int));
        }
        let strip = K::sup_bl(kb, mr, alpha, pas[g].as_slice(), b, bbuf, j, beta, c, cbuf, g * mr, first);
        let mut ii: usize = 0;
        let ghost row0 = (g * mr) as int;
        while ii < mr
            invariant
                0 < mr,
                0 < kb,
                row0 == g * mr,
                (g + 1) * mr <= mb,
                strip@.len() == mr,
                packed_a(pas@[g as int]@, *a, abuf@, row0, kb as int, mr as int),
                forall|t: int|
                    0 <= t < mr ==> #[trigger] strip@[t] == blend(
                        alpha,
                        dot(strided(pas@[g as int]@, t, mr as int), col_terms(*b, bbuf@, j as int), kb as nat),
                        beta,
                        elem(*c, cbuf@, row0 + t, j as int),
                        first,
                    ),
                ii <= mr,
                out@.len() == row0 + ii,
                forall|i: int|
                    0 <= i < out@.len() ==> #[trigger] out@[i] == block_value(
                        alpha,
                        beta,
                        *a,
                        abuf@,
                        *b,
                        bbuf@,
                        *c,
                        cbuf@,
                        kb as int,
                        first,
                        i,
                        j as int,
                    ),
            decreases mr - ii,
        {
            proof {
                lemma_packed_a_lane(
                    pas@[g as int]@,
                    *a,
                    abuf@,
                    row0,
                    kb as int,
                    mr as int,
                    ii as int,
                    col_terms(*b, bbuf@, j as int),
                );
            }
            out.push(strip[ii]);
            ii = ii + 1;
        }
        proof {
            assert(row0 + mr == (g + 1) * mr) by (nonlinear_arith)
                requires
                    row0 == g * mr,
            ;
        }
        g = g + 1;
    }
    let mut i: usize = groups * mr;
    while i < mb
        invariant
            0 < kb,
            i <= mb,
            covers(*a, mb as int, kb as int, abuf@.len() as int),
            covers(*b, kb as int, j + 1, bbuf@.len() as int),
            covers(*c, mb as int, j + 1, cbuf@.len() as int),
            out@.len() == i,
            forall|t: int|
                0 <= t < out@.len() ==> #[trigger] out@[t] == block_value(
                    alpha,
                    beta,
                    *a,
                    abuf@,
                    *b,
                    bbuf@,
                    *c,
                    cbuf@,
                    kb as int,
                    first,
                    t,
                    j as int,
                ),
        decreases mb - i,
    {
        proof {
            lemma_covers_shrink(*a, mb as int, kb as int, abuf@.len() as int, i + 1, kb as int);
            lemma_covers_shrink(*c, mb as int, j + 1, cbuf@.len() as int, i + 1, j + 1);
        }
        let v = K::sup_br(kb, alpha, a, abuf, i, b, bbuf, j, beta, c, cbuf, first);
        out.push(v);
        i = i + 1;
    }
    out
}

/// `g` groups of width `w` make `g` steps of `w`.
proof fn lemma_group_steps(g: int, w: int)
    requires
        0 < w,
        0 <= g,
    ensures
        num_steps(0, g * w, w) == g,
        forall|t: int| 0 <= t < g ==> #[trigger] (t * w) + w <= g * w && (t * w) % w == 0,
{
    if g > 0 {
        assert(g * w > 0) by (nonlinear_arith)
            requires
                0 < g,
                0 < w,
        ;
        lemma_grid(g * w + w - 1, w, g, w - 1);
    } else {
        assert(g * w == 0);
    }
    assert forall|t: int| 0 <= t < g implies #[trigger] (t * w) + w <= g * w && (t * w) % w == 0 by {
        assert(t * w + w <= g * w) by (nonlinear_arith)
            requires
                0 <= t < g,
                0 < w,
        ;
        lemma_grid(t * w, w, t, 0);
    }
}

/// Computes one block of `C`: rows `0 .. mb`, columns `0 .. nb` of the block
/// views, over depth `kb`. Column groups of `B` are packed when `first_time`
/// holds and reused otherwise; row groups of `A` are packed on every call.
fn inner_kernel<E: Executor, F: Number, K: GemmKernel<F>, A: Matrix, B: Matrix, C: MatrixMut>(
    e: &E,
    mr: usize,
    nr: usize,
    mb: usize,
    nb: usize,
    kb: usize,
    alpha: F,
    beta: F,
    a: A,
    abuf: &[F],
    b: B,
    bbuf: &[F],
    c: C,
    cbuf: &mut Vec<F>,
    pbs: &mut Vec<Vec<F>>,
    first_time: bool,
    first: bool,
)
    requires
        0 < mr,
        0 < nr,
        0 < mb,
        0 < nb,
        0 < kb,
        kb * mr <= usize::MAX,
        kb * nr <= usize::MAX,
        mr * nr <= usize::MAX,
        mb * nr <= usize::MAX,
        mb + mr <= usize::MAX,
        nb + nr <= usize::MAX,
        covers(a, mb as int, kb as int, abuf@.len() as int),
        covers(b, kb as int, nb as int, bbuf@.len() as int),
        covers(c, mb as int, nb as int, old(cbuf)@.len() as int),
        !first_time ==> packed_cols(old(pbs)@, b, bbuf@, kb as int, nr as int, (nb / nr) as int),
    ensures
        final(cbuf)@.len() == old(cbuf)@.len(),
        packed_cols(final(pbs)@, b, bbuf@, kb as int, nr as int, (nb / nr) as int),
        forall|i: int, j: int|
            0 <= i < mb && 0 <= j < nb ==> #[trigger] final(cbuf)@[index_of(c, i, j)] == block_value(
                alpha,
                beta,
                a,
                abuf@,
                b,
                bbuf@,
                c,
                old(cbuf)@,
                kb as int,
                first,
                i,
                j,
            ),
        forall|x: int|
            0 <= x < old(cbuf)@.len() && !in_region(c, mb as int, nb as int, x) ==> #[trigger] final(cbuf)@[x]
                == old(cbuf)@[x],
{
    proof {
        assert(nb % nr <= nb && mb % mr <= mb) by (nonlinear_arith)
            requires
                0 < nr,
                0 < mr,
        ;
    }
    let n_groups = nb / nr;
    let n_main = nb - nb % nr;
    let m_groups = mb / mr;
    let m_main = mb - mb % mr;
    proof {
        vstd::arithmetic::div_mod::lemma_fundamental_div_mod(nb as int, nr as int);
        vstd::arithmetic::div_mod::lemma_fundamental_div_mod(mb as int, mr as int);
        assert(n_main == n_groups * nr && m_main == m_groups * mr) by (nonlinear_arith)
            requires
                n_groups == nb / nr,
                n_main == nb - nb % nr,
                m_groups == mb / mr,
                m_main == mb - mb % mr,
                nb == nr * (nb / nr) + nb % nr,
                mb == mr * (mb / mr) + mb % mr,
        ;
        lemma_group_steps(n_groups as int, nr as int);
        lemma_group_steps(m_groups as int, mr as int);
    }
    if first_time {
        let pack_b = |j: usize| -> (r: Vec<F>)
            requires
                j + nr <= n_main,
                n_main <= nb,
                0 < nr,
                kb * nr <= usize::MAX,
                covers(b, kb as int, nb as int, bbuf@.len() as int),
            ensures
                packed_b(r@, b, bbuf@, j as int, kb as int, nr as int),
        {
            proof {
                lemma_covers_shrink(b, kb as int, nb as int, bbuf@.len() as int, kb as int, j + nr);
            }
            K::pack_row_b(&b, bbuf, j, kb, nr)
        };
        let packed = e.execute(0, n_main, nr, pack_b);
        proof {
            assert forall|t: int| 0 <= t < n_groups implies packed_b(#[trigger] packed@[t]@, b, bbuf@, t * nr, kb as int, nr as int) by {
                assert(pack_b.ensures(((0 + t * nr) as usize,), packed@[t]));
            }
        }
        *pbs = packed;
    }
    let pack_a = |i: usize| -> (r: Vec<F>)
        requires
            i + mr <= m_main,
            m_main <= mb,
            0 < mr,
            kb * mr <= usize::MAX,
            covers(a, mb as int, kb as int, abuf@.len() as int),
        ensures
            packed_a(r@, a, abuf@, i as int, kb as int, mr as int),
    {
        proof {
            lemma_covers_shrink(a, mb as int, kb as int, abuf@.len() as int, i + mr, kb as int);
        }
        K::pack_row_a(&a, abuf, i, kb, mr)
    };
    let pas = e.execute(0, m_main, mr, pack_a);
    proof {
        assert forall|g: int| 0 <= g < m_groups implies packed_a(#[trigger] pas@[g]@, a, abuf@, g * mr, kb as int, mr as int) by {
            assert(pack_a.ensures(((0 + g * mr) as usize,), pas@[g]));
        }
    }
    e.synchronize();
    let ghost old_c = cbuf@;
    let cur: &[F] = cbuf.as_slice();
    let pbr: &Vec<Vec<F>> = pbs;
    let main_strip = |j: usize| -> (r: Vec<F>)
        requires
            j + nr <= n_main,
            j % nr == 0,
            n_main == n_groups * nr,
            n_main <= nb,
            0 < mr,
            0 < nr,
            0 < kb,
            0 < mb,
            kb * mr <= usize::MAX,
            kb * nr <= usize::MAX,
            mr * nr <= usize::MAX,
            mb * nr <= usize::MAX,
            covers(a, mb as int, kb as int, abuf@.len() as int),
            covers(b, kb as int, nb as int, bbuf@.len() as int),
            covers(c, mb as int, nb as int, cur@.len() as int),
            packed_rows(pas@, a, abuf@, kb as int, mr as int, (mb / mr) as int),
            packed_cols(pbr@, b, bbuf@, kb as int, nr as int, n_groups as int),
        ensures
            r@.len() == mb * nr,
            forall|q: int|
                0 <= q < mb * nr ==> #[trigger] r@[q] == block_value(
                    alpha,
                    beta,
                    a,
                    abuf@,
                    b,
                    bbuf@,
                    c,
                    cur@,
                    kb as int,
                    first,
                    q / (nr as int),
                    j + q % (nr as int),
                ),
    {
        let t = j / nr;
        proof {
            vstd::arithmetic::div_mod::lemma_fundamental_div_mod(j as int, nr as int);
            assert(t * nr == j) by (nonlinear_arith)
                requires
                    j == nr * t + j % nr,
                    j % nr == 0,
            ;
            assert(t < n_groups) by (nonlinear_arith)
                requires
                    t * nr + nr <= n_groups * nr,
                    0 < nr,
            ;
            assert(packed_b(pbr@[t as int]@, b, bbuf@, t * nr, kb as int, nr as int));
            lemma_covers_shrink(b, kb as int, nb as int, bbuf@.len() as int, kb as int, j + nr);
            lemma_covers_shrink(c, mb as int, nb as int, cur@.len() as int, mb as int, j + nr);
        }
        column_group::<F, K, A, B, C>(kb, mr, nr, mb, alpha, beta, &a, abuf, &b, bbuf, &c, cur, &pas, &pbr[t], j, first)
    };
    let mains = e.execute(0, n_main, nr, main_strip);
    let rest_strip = |j: usize| -> (r: Vec<F>)
        requires
            j < nb,
            0 < mr,
            0 < kb,
            0 < mb,
            kb * mr <= usize::MAX,
            covers(a, mb as int, kb as int, abuf@.len() as int),
            covers(b, kb as int, nb as int, bbuf@.len() as int),
            covers(c, mb as int, nb as int, cur@.len() as int),
            packed_rows(pas@, a, abuf@, kb as int, mr as int, (mb / mr) as int),
        ensures
            r@.len() == mb,
            forall|i: int|
                0 <= i < mb ==> #[trigger] r@[i] == block_value(
                    alpha,
                    beta,
                    a,
                    abuf@,
                    b,
                    bbuf@,
                    c,
                    cur@,
                    kb as int,
                    first,
                    i,
                    j as int,
                ),
    {
        proof {
            lemma_covers_shrink(b, kb as int, nb as int, bbuf@.len() as int, kb as int, j + 1);
            lemma_covers_shrink(c, mb as int, nb as int, cur@.len() as int, mb as int, j + 1);
        }
        column_rest::<F, K, A, B, C>(kb, mr, mb, alpha, beta, &a, abuf, &b, bbuf, &c, cur, &pas, j, first)
    };
    let rests = e.execute(n_main, nb, 1, rest_strip);
    e.synchronize();
    proof {
        assert forall|t: int| 0 <= t < n_groups implies #[trigger] mains@[t]@.len() == mb * nr && forall|q: int|
            0 <= q < mb * nr ==> #[trigger] mains@[t]@[q] == block_value(
                alpha,
                beta,
                a,
                abuf@,
                b,
                bbuf@,
                c,
                old_c,
                kb as int,
                first,
                q / (nr as int),
                t * nr + q % (nr as int),
            ) by {
            assert(main_strip.ensures(((0 + t * nr) as usize,), mains@[t]));
        }
        assert forall|u: int| 0 <= u < nb - n_main implies #[trigger] rests@[u]@.len() == mb && forall|i: int|
            0 <= i < mb ==> #[trigger] rests@[u]@[i] == block_value(
                alpha,
                beta,
                a,
                abuf@,
                b,
                bbuf@,
                c,
                old_c,
                kb as int,
                first,
                i,
                n_main + u,
            ) by {
            assert(rest_strip.ensures(((n_main + u * 1) as usize,), rests@[u]));
        }
    }
    let mut j: usize = 0;
    while j < nb
        invariant
            0 < nr,
            0 < mb,
            n_main == n_groups * nr,
            n_groups == nb / nr,
            n_main <= nb,
            mb * nr <= usize::MAX,
            covers(c, mb as int, nb as int, old_c.len() as int),
            mains@.len() == n_groups,
            rests@.len() == nb - n_main,
            forall|t: int|
                0 <= t < n_groups ==> #[trigger] mains@[t]@.len() == mb * nr && forall|q: int|
                    0 <= q < mb * nr ==> #[trigger] mains@[t]@[q] == block_value(
                        alpha,
                        beta,
                        a,
                        abuf@,
                        b,
                        bbuf@,
                        c,
                        old_c,
                        kb as int,
                        first,
                        q / (nr as int),
                        t * nr + q % (nr as int),
                    ),
            forall|u: int|
                0 <= u < nb - n_main ==> #[trigger] rests@[u]@.len() == mb && forall|i: int|
                    0 <= i < mb ==> #[trigger] rests@[u]@[i] == block_value(
                        alpha,
                        beta,
                        a,
                        abuf@,
                        b,
                        bbuf@,
                        c,
                        old_c,
                        kb as int,
                        first,
                        i,
                        n_main + u,
                    ),
            j <= nb,
            cbuf@.len() == old_c.len(),
            forall|i2: int, j2: int|
                0 <= i2 < mb && 0 <= j2 < nb ==> #[trigger] cbuf@[index_of(c, i2, j2)] == if j2 < j {
                    block_value(alpha, beta, a, abuf@, b, bbuf@, c, old_c, kb as int, first, i2, j2)
                } else {
                    old_c[index_of(c, i2, j2)]
                },
            forall|x: int|
                0 <= x < old_c.len() && !in_region(c, mb as int, nb as int, x) ==> #[trigger] cbuf@[x]
                    == old_c[x],
        decreases nb - j,
    {
        let mut i: usize = 0;
        while i < mb
            invariant
                0 < nr,
                0 < mb,
                n_main == n_groups * nr,
                n_groups == nb / nr,
                n_main <= nb,
                mb * nr <= usize::MAX,
                covers(c, mb as int, nb as int, old_c.len() as int),
                mains@.len() == n_groups,
                rests@.len() == nb - n_main,
                forall|t: int|
                    0 <= t < n_groups ==> #[trigger] mains@[t]@.len() == mb * nr && forall|q: int|
                        0 <= q < mb * nr ==> #[trigger] mains@[t]@[q] == block_value(
                            alpha,
                            beta,
                            a,
                            abuf@,
                            b,
                            bbuf@,
                            c,
                            old_c,
                            kb as int,
                            first,
                            q / (nr as int),
                            t * nr + q % (nr as int),
                        ),
                forall|u: int|
                    0 <= u < nb - n_main ==> #[trigger] rests@[u]@.len() == mb && forall|i: int|
                        0 <= i < mb ==> #[trigger] rests@[u]@[i] == block_value(
                            alpha,
                            beta,
                            a,
                            abuf@,
                            b,
                            bbuf@,
                            c,
                            old_c,
                            kb as int,
                            first,
                            i,
                            n_main + u,
                        ),
                j < nb,
                i <= mb,
                cbuf@.len() == old_c.len(),
                forall|i2: int, j2: int|
                    0 <= i2 < mb && 0 <= j2 < nb ==> #[trigger] cbuf@[index_of(c, i2, j2)] == if j2 < j || (j2
                        == j && i2 < i) {
                        block_value(alpha, beta, a, abuf@, b, bbuf@, c, old_c, kb as int, first, i2, j2)
                    } else {
                        old_c[index_of(c, i2, j2)]
                    },
                forall|x: int|
                    0 <= x < old_c.len() && !in_region(c, mb as int, nb as int, x) ==> #[trigger] cbuf@[x]
                        == old_c[x],
            decreases mb - i,
        {
            let v = if j < n_main {
                let t = j / nr;
                proof {
                    assert(i * nr + nr <= mb * nr) by (nonlinear_arith)
                        requires
                            i < mb,
                            0 < nr,
                    ;
                }
                let q = i * nr + j % nr;
                proof {
                    vstd::arithmetic::div_mod::lemma_fundamental_div_mod(j as int, nr as int);
                    assert(t < n_groups) by (nonlinear_arith)
                        requires
                            j < n_main,
                            n_main == n_groups * nr,
                            j == nr * t + j % nr,
                            0 <= j % nr,
                            0 < nr,
                    ;
                    assert(i * nr + nr <= mb * nr) by (nonlinear_arith)
                        requires
                            i < mb,
                            0 < nr,
                    ;
                    lemma_grid(q as int, nr as int, i as int, (j % nr) as int);
                    assert(t * nr + j % nr == j) by (nonlinear_arith)
                        requires
                            j == nr * t + j % nr,
                    ;
                }
                assert(mains@[t as int]@.len() == mb * nr);
                let v = mains[t][q];
                assert(v == block_value(alpha, beta, a, abuf@, b, bbuf@, c, old_c, kb as int, first, (q as int) / (nr as int), t * nr + (q as int) % (nr as int)));
                assert(v == block_value(alpha, beta, a, abuf@, b, bbuf@, c, old_c, kb as int, first, i as int, j as int));
                v
            } else {
                assert(rests@[(j - n_main) as int]@.len() == mb);
                let v = rests[j - n_main][i];
                assert(v == block_value(alpha, beta, a, abuf@, b, bbuf@, c, old_c, kb as int, first, i as int, j as int));
                v
            };
            assert(v == block_value(alpha, beta, a, abuf@, b, bbuf@, c, old_c, kb as int, first, i as int, j as int));
            proof {
                lemma_covers_in_bounds(c, mb as int, nb as int, old_c.len() as int, i as int, j as int);
            }
            let ghost prev = cbuf@;
            c.set(cbuf, i, j, v);
            proof {
                assert(in_region(c, mb as int, nb as int, index_of(c, i as int, j as int)));
                assert forall|i2: int, j2: int| 0 <= i2 < mb && 0 <= j2 < nb implies #[trigger] cbuf@[index_of(c, i2, j2)]
                    == if j2 < j || (j2 == j && i2 < i + 1) {
                    block_value(alpha, beta, a, abuf@, b, bbuf@, c, old_c, kb as int, first, i2, j2)
                } else {
                    old_c[index_of(c, i2, j2)]
                } by {
                    if i2 != i || j2 != j {
                        lemma_covers_injective(c, mb as int, nb as int, old_c.len() as int, i2, j2, i as int, j as int);
                        lemma_covers_in_bounds(c, mb as int, nb as int, old_c.len() as int, i2, j2);
                        assert(cbuf@[index_of(c, i2, j2)] == prev[index_of(c, i2, j2)]);
                    }
                }
            }
            i = i + 1;
        }
        j = j + 1;
    }
}

/// How many depth panels element `(i, j)` has received while block
/// `(ic, jc)` of panel `t` is being computed, with `np` panels in all.
pub open spec fn panels_done(jc: int, nb: int, ic: int, t: int, np: int, i: int, j: int) -> nat {
    if j < jc {
        np as nat
    } else if j < jc + nb {
        if i < ic {
            (t + 1) as nat
        } else {
            t as nat
        }
    } else {
        0
    }
}

/// A position of a block of `c` is the position of an element of `c` inside
/// the block.
proof fn lemma_block_position<C: Matrix>(c: C, cb: C, ic: int, jc: int, mb: int, nb: int, pos: int)
    requires
        cb.spec_base() == index_of(c, ic, jc),
        cb.spec_stride() == c.spec_stride(),
        in_region(cb, mb, nb, pos),
    ensures
        exists|i: int, j: int| ic <= i < ic + mb && jc <= j < jc + nb && pos == #[trigger] index_of(c, i, j),
{
    let (i2, j2) = choose|i2: int, j2: int| 0 <= i2 < mb && 0 <= j2 < nb && pos == #[trigger] index_of(cb, i2, j2);
    lemma_sub_index(c, cb, ic, jc, i2, j2);
    assert(pos == index_of(c, ic + i2, jc + j2));
}

/// Inside block `(ic, pc, jc)` the blended block value of an element is the
/// next panel of its accumulation.
proof fn lemma_block_value<F: Number, A: Matrix, B: Matrix, C: Matrix>(
    alpha: F,
    beta: F,
    a: A,
    ab: A,
    abuf: Seq<F>,
    b: B,
    bb: B,
    bbuf: Seq<F>,
    c: C,
    cb: C,
    cbuf: Seq<F>,
    k: int,
    kc: int,
    t: int,
    ic: int,
    pc: int,
    jc: int,
    i: int,
    j: int,
    kb: int,
    c0: F,
)
    requires
        0 < kc,
        0 <= t,
        pc == t * kc,
        kb == panel_len(k, kc, t),
        0 <= kb,
        ab.spec_base() == index_of(a, ic, pc),
        ab.spec_stride() == a.spec_stride(),
        bb.spec_base() == index_of(b, pc, jc),
        bb.spec_stride() == b.spec_stride(),
        cb.spec_base() == index_of(c, ic, jc),
        cb.spec_stride() == c.spec_stride(),
        cbuf[index_of(c, i, j)] == accumulated(alpha, beta, view_fn(a, abuf), view_fn(b, bbuf), k, kc, i, j, c0, t as nat),
    ensures
        block_value(alpha, beta, ab, abuf, bb, bbuf, cb, cbuf, kb, pc == 0, i - ic, j - jc) == accumulated(
            alpha,
            beta,
            view_fn(a, abuf),
            view_fn(b, bbuf),
            k,
            kc,
            i,
            j,
            c0,
            (t + 1) as nat,
        ),
{
    let xa = view_fn(a, abuf);
    let yb = view_fn(b, bbuf);
    assert forall|p: int| 0 <= p < kb implies #[trigger] row_terms(ab, abuf, i - ic)(p) == (|p: int| xa(i, pc + p))(p)
        && col_terms(bb, bbuf, j - jc)(p) == (|p: int| yb(pc + p, j))(p) by {
        lemma_sub_index(a, ab, ic, pc, i - ic, p);
        lemma_sub_index(b, bb, pc, jc, p, j - jc);
    }
    lemma_dot_ext(
        row_terms(ab, abuf, i - ic),
        col_terms(bb, bbuf, j - jc),
        |p: int| xa(i, pc + p),
        |p: int| yb(pc + p, j),
        kb as nat,
    );
    lemma_sub_index(c, cb, ic, jc, i - ic, j - jc);
    assert(pc == 0 <==> t == 0) by (nonlinear_arith)
        requires
            pc == t * kc,
            0 < kc,
            0 <= t,
    ;
}

fn min_usize(x: usize, y: usize) -> (r: usize)
    ensures
        r == if x < y {
            x
        } else {
            y
        },
{
    if x < y {
        x
    } else {
        y
    }
}

/// The blocked multiplication over views: columns in panels of `nc`, depth
/// in panels of `kc`, rows in panels of `mc`. Each element of the `m x n`
/// region of `c` receives the depth panels in order; no other position of
/// `cbuf` changes.
pub(crate) fn gemm_template<E: Executor, F: Number, K: GemmKernel<F>, A: Matrix, B: Matrix, C: MatrixMut>(
    e: &E,
    params: &Params,
    m: usize,
    n: usize,
    k: usize,
    alpha: F,
    a: A,
    abuf: &[F],
    b: B,
    bbuf: &[F],
    beta: F,
    c: C,
    cbuf: &mut Vec<F>,
)
    requires
        params.wf(),
        covers(a, m as int, k as int, abuf@.len() as int),
        covers(b, k as int, n as int, bbuf@.len() as int),
        covers(c, m as int, n as int, old(cbuf)@.len() as int),
    ensures
        final(cbuf)@.len() == old(cbuf)@.len(),
        forall|i: int, j: int|
            0 <= i < m && 0 <= j < n ==> #[trigger] final(cbuf)@[index_of(c, i, j)] == accumulated(
                alpha,
                beta,
                view_fn(a, abuf@),
                view_fn(b, bbuf@),
                k as int,
                params.kc as int,
                i,
                j,
                elem(c, old(cbuf)@, i, j),
                num_panels(k as int, params.kc as int) as nat,
            ),
        forall|pos: int|
            0 <= pos < old(cbuf)@.len() && !in_region(c, m as int, n as int, pos) ==> #[trigger] final(cbuf)@[pos]
                == old(cbuf)@[pos],
{
    let mc = params.mc;
    let kc = params.kc;
    let nc = params.nc;
    let mr = params.mr;
    let nr = params.nr;
    let ghost c0 = cbuf@;
    let ghost xa = view_fn(a, abuf@);
    let ghost yb = view_fn(b, bbuf@);
    let ghost np = num_panels(k as int, kc as int);
    let ghost len = cbuf@.len() as int;
    let _alen = abuf.len();
    let _blen = bbuf.len();
    let _clen = cbuf.len();
    proof {
        lemma_num_steps_next(0, k as int, kc as int, 0);
    }
    let mut jc: usize = 0;
    while jc < n
        invariant
            params.wf(),
            mc == params.mc,
            kc == params.kc,
            nc == params.nc,
            mr == params.mr,
            nr == params.nr,
            abuf@.len() <= usize::MAX,
            bbuf@.len() <= usize::MAX,
            len <= usize::MAX,
            0 < np,
            np == num_panels(k as int, kc as int),
            xa == view_fn(a, abuf@),
            yb == view_fn(b, bbuf@),
            covers(a, m as int, k as int, abuf@.len() as int),
            covers(b, k as int, n as int, bbuf@.len() as int),
            covers(c, m as int, n as int, len),
            cbuf@.len() == len,
            c0.len() == len,
            jc <= n,
            forall|i: int, j: int|
                0 <= i < m && 0 <= j < n ==> #[trigger] cbuf@[index_of(c, i, j)] == accumulated(
                    alpha,
                    beta,
                    xa,
                    yb,
                    k as int,
                    kc as int,
                    i,
                    j,
                    elem(c, c0, i, j),
                    if j < jc {
                        np as nat
                    } else {
                        0
                    },
                ),
            forall|pos: int|
                0 <= pos < len && !in_region(c, m as int, n as int, pos) ==> #[trigger] cbuf@[pos] == c0[pos],
        decreases n - jc,
    {
        let nb = min_usize(n - jc, nc);
        let mut pc: usize = 0;
        let ghost mut t: int = 0;
        let mut pbs: Vec<Vec<F>> = Vec::new();
        while pc < k
            invariant
                params.wf(),
                mc == params.mc,
                kc == params.kc,
                nc == params.nc,
                mr == params.mr,
                nr == params.nr,
                abuf@.len() <= usize::MAX,
                bbuf@.len() <= usize::MAX,
                len <= usize::MAX,
                np == num_panels(k as int, kc as int),
                xa == view_fn(a, abuf@),
                yb == view_fn(b, bbuf@),
                covers(a, m as int, k as int, abuf@.len() as int),
                covers(b, k as int, n as int, bbuf@.len() as int),
                covers(c, m as int, n as int, len),
                cbuf@.len() == len,
                c0.len() == len,
                jc < n,
                0 < nb <= nc,
                jc + nb <= n,
                0 <= t <= np,
                pc == if t == np {
                    k as int
                } else {
                    t * kc
                },
                t < np ==> t * kc < k,
                forall|i: int, j: int|
                    0 <= i < m && 0 <= j < n ==> #[trigger] cbuf@[index_of(c, i, j)] == accumulated(
                        alpha,
                        beta,
                        xa,
                        yb,
                        k as int,
                        kc as int,
                        i,
                        j,
                        elem(c, c0, i, j),
                        panels_done(jc as int, nb as int, 0, t, np, i, j),
                    ),
                forall|pos: int|
                    0 <= pos < len && !in_region(c, m as int, n as int, pos) ==> #[trigger] cbuf@[pos] == c0[pos],
            decreases np - t,
        {
            let kb = min_usize(k - pc, kc);
            proof {
                lemma_covers_in_bounds(b, k as int, n as int, bbuf@.len() as int, pc as int, jc as int);
            }
            let bb = b.sub(pc, jc);
            proof {
                lemma_sub_covers(b, bb, k as int, n as int, bbuf@.len() as int, pc as int, jc as int, kb as int, nb as int);
            }
            let mut ic: usize = 0;
            while ic < m
                invariant
                    params.wf(),
                    mc == params.mc,
                    kc == params.kc,
                    nc == params.nc,
                    mr == params.mr,
                    nr == params.nr,
                    abuf@.len() <= usize::MAX,
                    bbuf@.len() <= usize::MAX,
                    len <= usize::MAX,
                    np == num_panels(k as int, kc as int),
                    xa == view_fn(a, abuf@),
                    yb == view_fn(b, bbuf@),
                    covers(a, m as int, k as int, abuf@.len() as int),
                    covers(b, k as int, n as int, bbuf@.len() as int),
                    covers(c, m as int, n as int, len),
                    cbuf@.len() == len,
                    c0.len() == len,
                    jc < n,
                    0 < nb <= nc,
                    jc + nb <= n,
                    0 <= t < np,
                    pc == t * kc,
                    pc < k,
                    kb == panel_len(k as int, kc as int, t),
                    0 < kb <= kc,
                    pc + kb <= k,
                    ic <= m,
                    bb.spec_base() == index_of(b, pc as int, jc as int),
                    bb.spec_stride() == b.spec_stride(),
                    covers(bb, kb as int, nb as int, bbuf@.len() as int),
                    ic > 0 ==> packed_cols(pbs@, bb, bbuf@, kb as int, nr as int, (nb / nr) as int),
                    forall|i: int, j: int|
                        0 <= i < m && 0 <= j < n ==> #[trigger] cbuf@[index_of(c, i, j)] == accumulated(
                            alpha,
                            beta,
                            xa,
                            yb,
                            k as int,
                            kc as int,
                            i,
                            j,
                            elem(c, c0, i, j),
                            panels_done(jc as int, nb as int, ic as int, t, np, i, j),
                        ),
                    forall|pos: int|
                        0 <= pos < len && !in_region(c, m as int, n as int, pos) ==> #[trigger] cbuf@[pos] == c0[pos],
                decreases m - ic,
            {
                let mb = min_usize(m - ic, mc);
                proof {
                    lemma_covers_in_bounds(a, m as int, k as int, abuf@.len() as int, ic as int, pc as int);
                    lemma_covers_in_bounds(c, m as int, n as int, len, ic as int, jc as int);
                }
                let ab = a.sub(ic, pc);
                let cb = c.sub(ic, jc);
                let ghost prev = cbuf@;
                proof {
                    lemma_sub_covers(a, ab, m as int, k as int, abuf@.len() as int, ic as int, pc as int, mb as int, kb as int);
                    lemma_sub_covers(c, cb, m as int, n as int, len, ic as int, jc as int, mb as int, nb as int);
                    assert(kb * mr <= kc * mr && kb * nr <= kc * nr && mb * nr <= mc * nr) by (nonlinear_arith)
                        requires
                            kb <= kc,
                            mb <= mc,
                    ;
                }
                inner_kernel::<E, F, K, A, B, C>(
                    e,
                    mr,
                    nr,
                    mb,
                    nb,
                    kb,
                    alpha,
                    beta,
                    ab,
                    abuf,
                    bb,
                    bbuf,
                    cb,
                    cbuf,
                    &mut pbs,
                    ic == 0,
                    pc == 0,
                );
                proof {
                    assert forall|i: int, j: int| 0 <= i < m && 0 <= j < n implies #[trigger] cbuf@[index_of(c, i, j)]
                        == accumulated(
                        alpha,
                        beta,
                        xa,
                        yb,
                        k as int,
                        kc as int,
                        i,
                        j,
                        elem(c, c0, i, j),
                        panels_done(jc as int, nb as int, ic + mb, t, np, i, j),
                    ) by {
                        lemma_covers_in_bounds(c, m as int, n as int, len, i, j);
                        if ic <= i < ic + mb && jc <= j < jc + nb {
                            lemma_sub_index(c, cb, ic as int, jc as int, i - ic, j - jc);
                            assert(cbuf@[index_of(cb, i - ic, j - jc)] == block_value(
                                alpha, beta, ab, abuf@, bb, bbuf@, cb, prev, kb as int, pc == 0, i - ic, j - jc));
                            lemma_block_value(
                                alpha, beta, a, ab, abuf@, b, bb, bbuf@, c, cb, prev, k as int, kc as int, t,
                                ic as int, pc as int, jc as int, i, j, kb as int, elem(c, c0, i, j),
                            );
                        } else {
                            if in_region(cb, mb as int, nb as int, index_of(c, i, j)) {
                                lemma_block_position(c, cb, ic as int, jc as int, mb as int, nb as int, index_of(c, i, j));
                                let (i2, j2) = choose|i2: int, j2: int|
                                    ic <= i2 < ic + mb && jc <= j2 < jc + nb && index_of(c, i, j) == #[trigger] index_of(c, i2, j2);
                                lemma_covers_injective(c, m as int, n as int, len, i, j, i2, j2);
                            }
                            assert(cbuf@[index_of(c, i, j)] == prev[index_of(c, i, j)]);
                        }
                    }
                    assert forall|pos: int| 0 <= pos < len && !in_region(c, m as int, n as int, pos) implies #[trigger] cbuf@[pos]
                        == c0[pos] by {
                        if in_region(cb, mb as int, nb as int, pos) {
                            lemma_block_position(c, cb, ic as int, jc as int, mb as int, nb as int, pos);
                        }
                        assert(cbuf@[pos] == prev[pos]);
                    }
                }
                ic = ic + mb;
            }
            proof {
                lemma_num_steps_next(0, k as int, kc as int, t + 1);
                assert((t + 1) * kc == t * kc + kc) by (nonlinear_arith);
                assert forall|i: int, j: int| 0 <= i < m && 0 <= j < n implies panels_done(jc as int, nb as int, m as int, t, np, i, j)
                    == panels_done(jc as int, nb as int, 0, t + 1, np, i, j) by {
                }
            }
            pc = pc + kb;
            proof {
                t = t + 1;
            }
        }
        proof {
            assert forall|i: int, j: int| 0 <= i < m && 0 <= j < n implies panels_done(jc as int, nb as int, 0, t, np, i, j)
                == (if j < jc + nb {
                np as nat
            } else {
                0
            }) by {
            }
        }
        jc = jc + nb;
    }
}

} // verus!
