//! Strided matrix views: an origin, a stride and an orientation over a buffer
//! that the view does not own, in four variants (read-only or writable,
//! natural or transposed).
use vstd::prelude::*;

verus! {

/// Position of logical element `(row, col)` of a view whose origin is `base`.
/// A natural view is row-major (`row` moves by `stride`, `col` by one); a
/// transposed view swaps the two roles and has a column stride.
pub open spec fn address(base: int, stride: int, transposed: bool, row: int, col: int) -> int {
    if transposed {
        base + row + col * stride
    } else {
        base + row * stride + col
    }
}

/// Position of logical element `(row, col)` of view `v`.
pub open spec fn index_of<M: Matrix>(v: M, row: int, col: int) -> int {
    address(v.spec_base() as int, v.spec_stride() as int, M::spec_transposed(), row, col)
}

/// Logical element `(row, col)` of view `v` over `buf`.
pub open spec fn elem<M: Matrix, F>(v: M, buf: Seq<F>, row: int, col: int) -> F {
    buf[index_of(v, row, col)]
}

/// The `rows x cols` region of `v` lies inside a buffer of `len` elements, and
/// the stride is wide enough that distinct elements of the region never share
/// a position.
pub open spec fn covers<M: Matrix>(v: M, rows: int, cols: int, len: int) -> bool {
    &&& 0 < rows
    &&& 0 < cols
    &&& if M::spec_transposed() {
        rows <= v.spec_stride()
    } else {
        cols <= v.spec_stride()
    }
    &&& index_of(v, rows - 1, cols - 1) < len
}

/// Position `x` belongs to an element of the `rows x cols` region of `v`.
pub open spec fn in_region<M: Matrix>(v: M, rows: int, cols: int, x: int) -> bool {
    exists|i: int, j: int| 0 <= i < rows && 0 <= j < cols && x == #[trigger] index_of(v, i, j)
}

/// Every element of a covered region has a position inside the buffer.
pub proof fn lemma_covers_in_bounds<M: Matrix>(v: M, rows: int, cols: int, len: int, r: int, c: int)
    requires
        covers(v, rows, cols, len),
        0 <= r < rows,
        0 <= c < cols,
    ensures
        0 <= index_of(v, r, c) <= index_of(v, rows - 1, cols - 1) < len,
        r <= index_of(v, r, c),
        c <= index_of(v, r, c),
{
    let s = v.spec_stride() as int;
    if !M::spec_transposed() {
        assert(r <= r * s) by (nonlinear_arith)
            requires
                0 <= r,
                1 <= s,
        ;
        assert(r * s <= (rows - 1) * s) by (nonlinear_arith)
            requires
                0 <= r <= rows - 1,
                0 <= s,
        ;
        assert(0 <= r * s) by (nonlinear_arith)
            requires
                0 <= r,
                0 <= s,
        ;
    } else {
        assert(c <= c * s) by (nonlinear_arith)
            requires
                0 <= c,
                1 <= s,
        ;
        assert(c * s <= (cols - 1) * s) by (nonlinear_arith)
            requires
                0 <= c <= cols - 1,
                0 <= s,
        ;
        assert(0 <= c * s) by (nonlinear_arith)
            requires
                0 <= c,
                0 <= s,
        ;
    }
}

/// A covered region covers every smaller region with the same origin.
pub proof fn lemma_covers_shrink<M: Matrix>(v: M, rows: int, cols: int, len: int, r: int, c: int)
    requires
        covers(v, rows, cols, len),
        0 < r <= rows,
        0 < c <= cols,
    ensures
        covers(v, r, c, len),
{
    lemma_covers_in_bounds(v, rows, cols, len, r - 1, c - 1);
}

/// The element `(r, c)` of a view re-sliced at `(r0, c0)` is element
/// `(r0 + r, c0 + c)` of the view it was cut from.
pub proof fn lemma_sub_index<M: Matrix>(v: M, s: M, r0: int, c0: int, r: int, c: int)
    requires
        s.spec_base() == index_of(v, r0, c0),
        s.spec_stride() == v.spec_stride(),
    ensures
        index_of(s, r, c) == index_of(v, r0 + r, c0 + c),
{
    let st = v.spec_stride() as int;
    assert((r0 + r) * st == r0 * st + r * st) by (nonlinear_arith);
    assert((c0 + c) * st == c0 * st + c * st) by (nonlinear_arith);
}

/// A region of a covered region, re-sliced at its origin, is covered.
pub proof fn lemma_sub_covers<M: Matrix>(
    v: M,
    s: M,
    rows: int,
    cols: int,
    len: int,
    r0: int,
    c0: int,
    r: int,
    c: int,
)
    requires
        covers(v, rows, cols, len),
        s.spec_base() == index_of(v, r0, c0),
        s.spec_stride() == v.spec_stride(),
        0 <= r0,
        0 <= c0,
        0 < r,
        0 < c,
        r0 + r <= rows,
        c0 + c <= cols,
    ensures
        covers(s, r, c, len),
{
    lemma_sub_index(v, s, r0, c0, r - 1, c - 1);
    lemma_covers_in_bounds(v, rows, cols, len, r0 + r - 1, c0 + c - 1);
}

/// Distinct elements of a covered region have distinct positions.
pub proof fn lemma_covers_injective<M: Matrix>(
    v: M,
    rows: int,
    cols: int,
    len: int,
    r1: int,
    c1: int,
    r2: int,
    c2: int,
)
    requires
        covers(v, rows, cols, len),
        0 <= r1 < rows,
        0 <= c1 < cols,
        0 <= r2 < rows,
        0 <= c2 < cols,
        r1 != r2 || c1 != c2,
    ensures
        index_of(v, r1, c1) != index_of(v, r2, c2),
{
    let s = v.spec_stride() as int;
    if !M::spec_transposed() {
        if r1 != r2 {
            lemma_stride_separates(r1, c1, r2, c2, s, cols);
        }
    } else {
        if c1 != c2 {
            lemma_stride_separates(c1, r1, c2, r2, s, rows);
        }
    }
}

proof fn lemma_stride_separates(major1: int, minor1: int, major2: int, minor2: int, s: int, width: int)
    requires
        major1 != major2,
        0 <= minor1 < width,
        0 <= minor2 < width,
        width <= s,
    ensures
        major1 * s + minor1 != major2 * s + minor2,
{
    if major1 < major2 {
        assert(major1 * s + s <= major2 * s) by (nonlinear_arith)
            requires
                major1 < major2,
                0 <= s,
        ;
    } else {
        assert(major2 * s + s <= major1 * s) by (nonlinear_arith)
            requires
                major2 < major1,
                0 <= s,
        ;
    }
}

fn locate(base: usize, stride: usize, transposed: bool, row: usize, col: usize) -> (r: usize)
    requires
        address(base as int, stride as int, transposed, row as int, col as int) <= usize::MAX,
    ensures
        r == address(base as int, stride as int, transposed, row as int, col as int),
{
    if transposed {
        base + row + col * stride
    } else {
        base + row * stride + col
    }
}

/// A strided two-dimensional view into a buffer that it does not own: an
/// origin, a stride and an orientation. Views are re-sliced with `sub`,
/// `sub_row` and `sub_col` without copying.
pub trait Matrix: Copy + Send + Sync + Sized {
    spec fn spec_base(&self) -> nat;

    spec fn spec_stride(&self) -> nat;

    spec fn spec_transposed() -> bool;

    fn from_parts(base: usize, stride: usize) -> (r: Self)
        ensures
            r.spec_base() == base,
            r.spec_stride() == stride,
    ;

    /// The origin of the view in its buffer.
    fn ptr(&self) -> (r: usize)
        ensures
            r == self.spec_base(),
    ;

    fn stride(&self) -> (r: usize)
        ensures
            r == self.spec_stride(),
    ;

    fn is_transposed(&self) -> (r: bool)
        ensures
            r == Self::spec_transposed(),
    ;

    /// Position of element `(row, col)`.
    fn index(&self, row: usize, col: usize) -> (r: usize)
        requires
            address(self.spec_base() as int, self.spec_stride() as int, Self::spec_transposed(), row as int, col as int) <= usize::MAX,
        ensures
            r == address(self.spec_base() as int, self.spec_stride() as int, Self::spec_transposed(), row as int, col as int),
    ;

    /// Position of the first element of row `row`.
    fn row(&self, row: usize) -> (r: usize)
        requires
            address(self.spec_base() as int, self.spec_stride() as int, Self::spec_transposed(), row as int, 0) <= usize::MAX,
        ensures
            r == address(self.spec_base() as int, self.spec_stride() as int, Self::spec_transposed(), row as int, 0),
    {
        self.index(row, 0)
    }

    /// Position of the first element of column `col`.
    fn col(&self, col: usize) -> (r: usize)
        requires
            address(self.spec_base() as int, self.spec_stride() as int, Self::spec_transposed(), 0, col as int) <= usize::MAX,
        ensures
            r == address(self.spec_base() as int, self.spec_stride() as int, Self::spec_transposed(), 0, col as int),
    {
        self.index(0, col)
    }

    /// The view whose origin is element `(row, col)` of this one.
    fn sub(&self, row: usize, col: usize) -> (r: Self)
        requires
            address(self.spec_base() as int, self.spec_stride() as int, Self::spec_transposed(), row as int, col as int) <= usize::MAX,
        ensures
            r.spec_base() == address(self.spec_base() as int, self.spec_stride() as int, Self::spec_transposed(), row as int, col as int),
            r.spec_stride() == self.spec_stride(),
    {
        Self::from_parts(self.index(row, col), self.stride())
    }

    /// The view whose origin is the first element of row `row`.
    fn sub_row(&self, row: usize) -> (r: Self)
        requires
            address(self.spec_base() as int, self.spec_stride() as int, Self::spec_transposed(), row as int, 0) <= usize::MAX,
        ensures
            r.spec_base() == address(self.spec_base() as int, self.spec_stride() as int, Self::spec_transposed(), row as int, 0),
            r.spec_stride() == self.spec_stride(),
    {
        Self::from_parts(self.row(row), self.stride())
    }

    /// The view whose origin is the first element of column `col`.
    fn sub_col(&self, col: usize) -> (r: Self)
        requires
            address(self.spec_base() as int, self.spec_stride() as int, Self::spec_transposed(), 0, col as int) <= usize::MAX,
        ensures
            r.spec_base() == address(self.spec_base() as int, self.spec_stride() as int, Self::spec_transposed(), 0, col as int),
            r.spec_stride() == self.spec_stride(),
    {
        Self::from_parts(self.col(col), self.stride())
    }

    /// Element `(row, col)` of the view over `buf`.
    fn get<F: Copy>(&self, buf: &[F], row: usize, col: usize) -> (r: F)
        requires
            address(self.spec_base() as int, self.spec_stride() as int, Self::spec_transposed(), row as int, col as int) < buf@.len(),
        ensures
            r == buf@[address(self.spec_base() as int, self.spec_stride() as int, Self::spec_transposed(), row as int, col as int)],
    {
        let _len = buf.len();
        buf[self.index(row, col)]
    }
}

/// A view through which elements can also be written.
pub trait MatrixMut: Matrix {
    /// Writes `val` at element `(row, col)` of the view over `buf`.
    fn set<F: Copy>(&self, buf: &mut Vec<F>, row: usize, col: usize, val: F)
        requires
            address(self.spec_base() as int, self.spec_stride() as int, Self::spec_transposed(), row as int, col as int) < old(buf)@.len(),
        ensures
            final(buf)@ == old(buf)@.update(address(self.spec_base() as int, self.spec_stride() as int, Self::spec_transposed(), row as int, col as int), val),
    {
        let _len = buf.len();
        let i = self.index(row, col);
        buf.set(i, val);
    }
}

/// A read-only view in natural orientation: a row stride, row-major.
#[derive(Clone, Copy)]
pub struct ConstMatrix {
    pub stride: usize,
    pub ptr: usize,
}

impl ConstMatrix {
    pub fn new(ptr: usize, stride: usize) -> (r: Self)
        ensures
            r.ptr == ptr,
            r.stride == stride,
    {
        ConstMatrix { ptr, stride }
    }
}

impl Matrix for ConstMatrix {
    open spec fn spec_base(&self) -> nat {
        self.ptr as nat
    }

    open spec fn spec_stride(&self) -> nat {
        self.stride as nat
    }

    open spec fn spec_transposed() -> bool {
        false
    }

    fn from_parts(base: usize, stride: usize) -> (r: Self) {
        ConstMatrix { ptr: base, stride }
    }

    fn ptr(&self) -> (r: usize) {
        self.ptr
    }

    fn stride(&self) -> (r: usize) {
        self.stride
    }

    fn is_transposed(&self) -> (r: bool) {
        false
    }

    fn index(&self, row: usize, col: usize) -> (r: usize) {
        locate(self.ptr, self.stride, false, row, col)
    }
}

/// A read-only view in transposed orientation: a column stride.
#[derive(Clone, Copy)]
pub struct ConstTransposedMatrix {
    pub stride: usize,
    pub ptr: usize,
}

impl ConstTransposedMatrix {
    pub fn new(ptr: usize, stride: usize) -> (r: Self)
        ensures
            r.ptr == ptr,
            r.stride == stride,
    {
        ConstTransposedMatrix { ptr, stride }
    }
}

impl Matrix for ConstTransposedMatrix {
    open spec fn spec_base(&self) -> nat {
        self.ptr as nat
    }

    open spec fn spec_stride(&self) -> nat {
        self.stride as nat
    }

    open spec fn spec_transposed() -> bool {
        true
    }

    fn from_parts(base: usize, stride: usize) -> (r: Self) {
        ConstTransposedMatrix { ptr: base, stride }
    }

    fn ptr(&self) -> (r: usize) {
        self.ptr
    }

    fn stride(&self) -> (r: usize) {
        self.stride
    }

    fn is_transposed(&self) -> (r: bool) {
        true
    }

    fn index(&self, row: usize, col: usize) -> (r: usize) {
        locate(self.ptr, self.stride, true, row, col)
    }
}

/// A writable view in natural orientation: a row stride, row-major.
#[derive(Clone, Copy)]
pub struct MutMatrix {
    pub stride: usize,
    pub ptr: usize,
}

impl MutMatrix {
    pub fn new(ptr: usize, stride: usize) -> (r: Self)
        ensures
            r.ptr == ptr,
            r.stride == stride,
    {
        MutMatrix { ptr, stride }
    }
}

impl Matrix for MutMatrix {
    open spec fn spec_base(&self) -> nat {
        self.ptr as nat
    }

    open spec fn spec_stride(&self) -> nat {
        self.stride as nat
    }

    open spec fn spec_transposed() -> bool {
        false
    }

    fn from_parts(base: usize, stride: usize) -> (r: Self) {
        MutMatrix { ptr: base, stride }
    }

    fn ptr(&self) -> (r: usize) {
        self.ptr
    }

    fn stride(&self) -> (r: usize) {
        self.stride
    }

    fn is_transposed(&self) -> (r: bool) {
        false
    }

    fn index(&self, row: usize, col: usize) -> (r: usize) {
        locate(self.ptr, self.stride, false, row, col)
    }
}

impl MatrixMut for MutMatrix {
}

/// A writable view in transposed orientation: a column stride.
#[derive(Clone, Copy)]
pub struct MutTransposedMatrix {
    pub stride: usize,
    pub ptr: usize,
}

impl MutTransposedMatrix {
    pub fn new(ptr: usize, stride: usize) -> (r: Self)
        ensures
            r.ptr == ptr,
            r.stride == stride,
    {
        MutTransposedMatrix { ptr, stride }
    }
}

impl Matrix for MutTransposedMatrix {
    open spec fn spec_base(&self) -> nat {
        self.ptr as nat
    }

    open spec fn spec_stride(&self) -> nat {
        self.stride as nat
    }

    open spec fn spec_transposed() -> bool {
        true
    }

    fn from_parts(base: usize, stride: usize) -> (r: Self) {
        MutTransposedMatrix { ptr: base, stride }
    }

    fn ptr(&self) -> (r: usize) {
        self.ptr
    }

    fn stride(&self) -> (r: usize) {
        self.stride
    }

    fn is_transposed(&self) -> (r: bool) {
        true
    }

    fn index(&self, row: usize, col: usize) -> (r: usize) {
        locate(self.ptr, self.stride, true, row, col)
    }
}

impl MatrixMut for MutTransposedMatrix {
}

} // verus!
