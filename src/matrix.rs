use vstd::prelude::*;

verus! {

/// A dense matrix of bytes, held as an `ndarray::Array2<u8>`.
#[verifier::external_body]
pub struct U8Matrix {
    inner: ndarray::Array2<u8>,
}

/// A dense matrix of signed integers, held as an `ndarray::Array2<i32>`.
#[verifier::external_body]
pub struct I32Matrix {
    inner: ndarray::Array2<i32>,
}

/// A compressed sparse-row matrix of signed integers, held as a `sprs::CsMat<i32>`.
#[verifier::external_body]
pub struct SparseI32Matrix {
    inner: sprs::CsMat<i32>,
}

/// The rows of a byte matrix, each the sequence of its cells.
pub uninterp spec fn grid_u8(m: U8Matrix) -> Seq<Seq<u8>>;

/// The rows of an integer matrix, each the sequence of its cells.
pub uninterp spec fn grid_i32(m: I32Matrix) -> Seq<Seq<i32>>;

/// The rows of a sparse matrix: `Some(v)` where the value `v` is stored, `None` elsewhere.
pub uninterp spec fn sparse_cells(m: SparseI32Matrix) -> Seq<Seq<Option<i32>>>;

/// A `rows x cols` grid that holds `v` in every cell.
pub open spec fn filled<T>(rows: nat, cols: nat, v: T) -> Seq<Seq<T>> {
    Seq::new(rows, |i: int| Seq::new(cols, |j: int| v))
}

/// Every row of `g` has `cols` cells.
pub open spec fn is_rect<T>(g: Seq<Seq<T>>, cols: nat) -> bool {
    forall|i: int| 0 <= i < g.len() ==> #[trigger] g[i].len() == cols
}

/// `g` with the cell at row `i`, column `j` set to `v`.
pub open spec fn set_cell<T>(g: Seq<Seq<T>>, i: int, j: int, v: T) -> Seq<Seq<T>> {
    g.update(i, g[i].update(j, v))
}

/// The cells of `g` that differ from `fill`, as stored values; the others absent.
pub open spec fn cells_without(g: Seq<Seq<i32>>, fill: i32) -> Seq<Seq<Option<i32>>> {
    Seq::new(
        g.len(),
        |i: int| Seq::new(g[i].len(), |j: int| if g[i][j] != fill { Some(g[i][j]) } else { None }),
    )
}

/// Whether compressed rows hold column `j` of row `i`.
pub open spec fn csr_holds(indptr: Seq<usize>, indices: Seq<usize>, i: int, j: int) -> bool {
    exists|k: int| indptr[i] <= k < indptr[i + 1] && #[trigger] indices[k] == j
}

/// The cells that compressed rows describe: row `i` stores `data[k]` in
/// column `indices[k]` for each `k` from `indptr[i]` up to `indptr[i + 1]`.
pub open spec fn csr_cells(
    rows: nat,
    cols: nat,
    indptr: Seq<usize>,
    indices: Seq<usize>,
    data: Seq<i32>,
) -> Seq<Seq<Option<i32>>> {
    Seq::new(
        rows,
        |i: int|
            Seq::new(
                cols,
                |j: int|
                    if csr_holds(indptr, indices, i, j) {
                        Some(data[choose|k: int| indptr[i] <= k < indptr[i + 1] && #[trigger] indices[k] == j])
                    } else {
                        None
                    },
            ),
    )
}

/// Compressed rows of a `rows x cols` matrix that pass sprs's structure
/// check: offsets start at zero, never decrease and end at the number of
/// entries, which stays within half of `usize`; within a row the column
/// indices increase strictly and stay below `cols`.
pub open spec fn valid_csr(
    rows: nat,
    cols: nat,
    indptr: Seq<usize>,
    indices: Seq<usize>,
    data: Seq<i32>,
) -> bool {
    &&& data.len() == indices.len()
    &&& indptr.len() == rows + 1
    &&& indptr[0] == 0
    &&& indptr[rows as int] == indices.len()
    &&& indices.len() <= usize::MAX / 2
    &&& forall|a: int, b: int| 0 <= a <= b <= rows ==> indptr[a] <= indptr[b]
    &&& forall|i: int, k: int|
        #![trigger indptr[i], indices[k]]
        0 <= i < rows && indptr[i] <= k < indptr[i + 1] ==> indices[k] < cols
    &&& forall|i: int, k1: int, k2: int|
        #![trigger indptr[i], indices[k1], indices[k2]]
        0 <= i < rows && indptr[i] <= k1 < k2 < indptr[i + 1] ==> indices[k1] < indices[k2]
}

/// The dense form of a sparse matrix: zero where nothing is stored.
pub open spec fn densified(c: Seq<Seq<Option<i32>>>) -> Seq<Seq<i32>> {
    Seq::new(
        c.len(),
        |i: int|
            Seq::new(
                c[i].len(),
                |j: int|
                    match c[i][j] {
                        Some(v) => v,
                        None => 0i32,
                    },
            ),
    )
}

/// The first `n` rows of `g` stand compressed in `indptr`, `indices`, `data`:
/// each entry of a row names a column below `cols` whose cell differs from
/// `fill` and holds that cell's value, the entries of a row rise strictly by
/// column, and every such cell has an entry.
#[verifier::opaque]
pub open spec fn compressed_rows(
    g: Seq<Seq<i32>>,
    fill: i32,
    cols: nat,
    n: int,
    indptr: Seq<usize>,
    indices: Seq<usize>,
    data: Seq<i32>,
) -> bool {
    &&& forall|r: int, k: int|
        #![trigger indptr[r], indices[k]]
        0 <= r < n && indptr[r] <= k < indptr[r + 1] ==> indices[k] < cols && g[r][indices[k] as int] != fill
            && data[k] == g[r][indices[k] as int]
    &&& forall|r: int, k1: int, k2: int|
        #![trigger indptr[r], indices[k1], indices[k2]]
        0 <= r < n && indptr[r] <= k1 < k2 < indptr[r + 1] ==> indices[k1] < indices[k2]
    &&& forall|r: int, c: int| 0 <= r < n && 0 <= c < cols && g[r][c] != fill ==> csr_holds(indptr, indices, r, c)
    &&& forall|r: int| 0 <= r < n ==> #[trigger] indptr[r] <= indptr[r + 1] && indptr[r + 1] <= indices.len()
}

/// Row `r` of `g` stands compressed, up to column `j`, in the entries of
/// `indices` and `data` from `start` on.
#[verifier::opaque]
pub open spec fn partial_row(
    g: Seq<Seq<i32>>,
    fill: i32,
    r: int,
    start: int,
    j: int,
    indices: Seq<usize>,
    data: Seq<i32>,
) -> bool {
    &&& forall|k: int|
        start <= k < indices.len() ==> #[trigger] indices[k] < j && g[r][indices[k] as int] != fill && data[k]
            == g[r][indices[k] as int]
    &&& forall|k1: int, k2: int|
        #![trigger indices[k1], indices[k2]]
        start <= k1 < k2 < indices.len() ==> indices[k1] < indices[k2]
    &&& forall|c: int|
        0 <= c < j && g[r][c] != fill ==> exists|k: int| start <= k < indices.len() && #[trigger] indices[k] == c
}

proof fn lemma_mul_step(i: int, cols: int, rows: int)
    requires
        0 <= i < rows,
        0 <= cols,
    ensures
        i * cols + cols == (i + 1) * cols,
        (i + 1) * cols <= rows * cols,
{
    assert(i * cols + cols == (i + 1) * cols) by (nonlinear_arith);
    assert((i + 1) * cols <= rows * cols) by (nonlinear_arith)
        requires
            i + 1 <= rows,
            0 <= cols,
    ;
}

/// A side whose square fits below a bound fits below it too.
pub proof fn lemma_side_of_square(n: int, bound: int)
    requires
        0 <= n,
        n * n <= bound,
    ensures
        n <= bound || n == 0,
{
    if n > 0 {
        assert(n <= n * n) by (nonlinear_arith)
            requires
                n > 0,
        ;
    }
}

/// Nothing is compressed yet.
proof fn lemma_rows_start(g: Seq<Seq<i32>>, fill: i32, cols: nat, indptr: Seq<usize>, indices: Seq<usize>, data: Seq<i32>)
    ensures
        compressed_rows(g, fill, cols, 0, indptr, indices, data),
{
    reveal(compressed_rows);
}

/// A row starts with no entries.
proof fn lemma_row_start(g: Seq<Seq<i32>>, fill: i32, r: int, indices: Seq<usize>, data: Seq<i32>)
    ensures
        partial_row(g, fill, r, indices.len() as int, 0, indices, data),
{
    reveal(partial_row);
}

/// A cell equal to `fill` adds no entry.
proof fn lemma_row_skip(g: Seq<Seq<i32>>, fill: i32, r: int, start: int, j: int, indices: Seq<usize>, data: Seq<i32>)
    requires
        partial_row(g, fill, r, start, j, indices, data),
        0 <= j < g[r].len(),
        g[r][j] == fill,
    ensures
        partial_row(g, fill, r, start, j + 1, indices, data),
{
    reveal(partial_row);
    assert forall|c: int| 0 <= c < j + 1 && g[r][c] != fill implies exists|k: int|
        start <= k < indices.len() && #[trigger] indices[k] == c by {}
}

/// A cell that differs from `fill` adds its entry at the end.
proof fn lemma_row_push(
    g: Seq<Seq<i32>>,
    fill: i32,
    r: int,
    start: int,
    j: usize,
    indices: Seq<usize>,
    data: Seq<i32>,
    new_indices: Seq<usize>,
    new_data: Seq<i32>,
)
    requires
        partial_row(g, fill, r, start, j as int, indices, data),
        0 <= start <= indices.len(),
        j < g[r].len(),
        g[r][j as int] != fill,
        new_indices == indices.push(j),
        new_data == data.push(g[r][j as int]),
        data.len() == indices.len(),
    ensures
        partial_row(g, fill, r, start, j + 1, new_indices, new_data),
{
    reveal(partial_row);
    let last = indices.len() as int;
    assert(new_indices[last] == j);
    assert forall|k: int| start <= k < new_indices.len() implies #[trigger] new_indices[k] < j + 1 && g[r][new_indices[k] as int]
        != fill && new_data[k] == g[r][new_indices[k] as int] by {
        if k < last {
            assert(new_indices[k] == indices[k]);
            assert(new_data[k] == data[k]);
        }
    }
    assert forall|k1: int, k2: int|
        #![trigger new_indices[k1], new_indices[k2]]
        start <= k1 < k2 < new_indices.len() implies new_indices[k1] < new_indices[k2] by {
        assert(new_indices[k1] == indices[k1]);
        if k2 < last {
            assert(new_indices[k2] == indices[k2]);
        }
    }
    assert forall|c: int| 0 <= c < j + 1 && g[r][c] != fill implies exists|k: int|
        start <= k < new_indices.len() && #[trigger] new_indices[k] == c by {
        if c < j {
            let k0 = choose|k: int| start <= k < indices.len() && #[trigger] indices[k] == c;
            assert(new_indices[k0] == c);
        } else {
            assert(new_indices[last] == c);
        }
    }
}

/// Appending an entry after the completed rows leaves them as they were.
proof fn lemma_push_keeps_rows(
    g: Seq<Seq<i32>>,
    fill: i32,
    cols: nat,
    n: int,
    indptr: Seq<usize>,
    indices: Seq<usize>,
    data: Seq<i32>,
    x: usize,
    v: i32,
    new_indices: Seq<usize>,
    new_data: Seq<i32>,
)
    requires
        compressed_rows(g, fill, cols, n, indptr, indices, data),
        data.len() == indices.len(),
        new_indices == indices.push(x),
        new_data == data.push(v),
    ensures
        compressed_rows(g, fill, cols, n, indptr, new_indices, new_data),
{
    reveal(compressed_rows);
    assert forall|r: int, k: int|
        #![trigger indptr[r], new_indices[k]]
        0 <= r < n && indptr[r] <= k < indptr[r + 1] implies new_indices[k] < cols && g[r][new_indices[k] as int]
        != fill && new_data[k] == g[r][new_indices[k] as int] by {
        assert(indptr[r] <= indptr[r + 1] && indptr[r + 1] <= indices.len());
        assert(indices[k] < cols);
        assert(new_indices[k] == indices[k]);
        assert(new_data[k] == data[k]);
    }
    assert forall|r: int, k1: int, k2: int|
        #![trigger indptr[r], new_indices[k1], new_indices[k2]]
        0 <= r < n && indptr[r] <= k1 < k2 < indptr[r + 1] implies new_indices[k1] < new_indices[k2] by {
        assert(indptr[r] <= indptr[r + 1] && indptr[r + 1] <= indices.len());
        assert(indices[k1] < indices[k2]);
        assert(new_indices[k1] == indices[k1]);
        assert(new_indices[k2] == indices[k2]);
    }
    assert forall|r: int, c: int| 0 <= r < n && 0 <= c < cols && g[r][c] != fill implies csr_holds(
        indptr,
        new_indices,
        r,
        c,
    ) by {
        assert(csr_holds(indptr, indices, r, c));
        let k = choose|k: int| indptr[r] <= k < indptr[r + 1] && #[trigger] indices[k] == c;
        assert(indptr[r] <= indptr[r + 1] && indptr[r + 1] <= indices.len());
        assert(new_indices[k] == c);
    }
    assert forall|r: int| 0 <= r < n implies #[trigger] indptr[r] <= indptr[r + 1] && indptr[r + 1] <= new_indices.len() by {
        assert(indptr[r] <= indptr[r + 1] && indptr[r + 1] <= indices.len());
    }
}

/// Closing the current row with its end offset adds it to the completed rows.
proof fn lemma_close_row(
    g: Seq<Seq<i32>>,
    fill: i32,
    cols: nat,
    n: int,
    indptr: Seq<usize>,
    new_indptr: Seq<usize>,
    indices: Seq<usize>,
    data: Seq<i32>,
)
    requires
        0 <= n,
        indptr.len() == n + 1,
        new_indptr.len() == n + 2,
        forall|r: int| 0 <= r <= n ==> new_indptr[r] == indptr[r],
        new_indptr[n + 1] == indices.len(),
        indptr[n] <= indices.len(),
        compressed_rows(g, fill, cols, n, indptr, indices, data),
        partial_row(g, fill, n, indptr[n] as int, cols as int, indices, data),
    ensures
        compressed_rows(g, fill, cols, n + 1, new_indptr, indices, data),
{
    reveal(compressed_rows);
    reveal(partial_row);
    assert forall|r: int, k: int|
        #![trigger new_indptr[r], indices[k]]
        0 <= r < n + 1 && new_indptr[r] <= k < new_indptr[r + 1] implies indices[k] < cols && g[r][indices[k] as int]
        != fill && data[k] == g[r][indices[k] as int] by {
        if r < n {
            assert(indptr[r] <= k < indptr[r + 1]);
        }
    }
    assert forall|r: int, k1: int, k2: int|
        #![trigger new_indptr[r], indices[k1], indices[k2]]
        0 <= r < n + 1 && new_indptr[r] <= k1 < k2 < new_indptr[r + 1] implies indices[k1] < indices[k2] by {
        if r < n {
            assert(indptr[r] <= k1 < k2 < indptr[r + 1]);
        }
    }
    assert forall|r: int, c: int| 0 <= r < n + 1 && 0 <= c < cols && g[r][c] != fill implies csr_holds(
        new_indptr,
        indices,
        r,
        c,
    ) by {
        if r < n {
            assert(csr_holds(indptr, indices, r, c));
            let k = choose|k: int| indptr[r] <= k < indptr[r + 1] && #[trigger] indices[k] == c;
            assert(indices[k] == c);
        } else {
            let k = choose|k: int| indptr[n] <= k < indices.len() && #[trigger] indices[k] == c;
            assert(indices[k] == c);
        }
    }
    assert forall|r: int| 0 <= r < n + 1 implies #[trigger] new_indptr[r] <= new_indptr[r + 1] && new_indptr[r + 1]
        <= indices.len() by {
        if r < n {
            assert(indptr[r] <= indptr[r + 1]);
        }
    }
}

/// Complete compressed rows pass sprs's structure check and describe
/// exactly the cells that differ from `fill`.
proof fn lemma_compressed_cells(
    g: Seq<Seq<i32>>,
    fill: i32,
    rows: nat,
    cols: nat,
    indptr: Seq<usize>,
    indices: Seq<usize>,
    data: Seq<i32>,
)
    requires
        g.len() == rows,
        is_rect(g, cols),
        indptr.len() == rows + 1,
        indptr[0] == 0,
        indptr[rows as int] == indices.len(),
        indices.len() <= usize::MAX / 2,
        data.len() == indices.len(),
        forall|a: int, b: int| 0 <= a <= b <= rows ==> indptr[a] <= indptr[b],
        compressed_rows(g, fill, cols, rows as int, indptr, indices, data),
    ensures
        valid_csr(rows, cols, indptr, indices, data),
        csr_cells(rows, cols, indptr, indices, data) == cells_without(g, fill),
{
    reveal(compressed_rows);
    let lhs = csr_cells(rows, cols, indptr, indices, data);
    let rhs = cells_without(g, fill);
    assert forall|i: int| 0 <= i < rows implies lhs[i] =~= rhs[i] by {
        assert(g[i].len() == cols);
        assert forall|j: int| 0 <= j < cols implies lhs[i][j] == rhs[i][j] by {
            if csr_holds(indptr, indices, i, j) {
                let k = choose|k: int| indptr[i] <= k < indptr[i + 1] && #[trigger] indices[k] == j;
                assert(indices[k] < cols && g[i][indices[k] as int] != fill && data[k] == g[i][indices[k] as int]);
            }
        }
    }
    assert(lhs =~= rhs);
}

impl U8Matrix {
    /// Relies on ndarray's `Array2::zeros`: a `rows x cols` matrix of zeros.
    /// It panics when the product of the non-zero axis lengths overflows `isize`.
    #[verifier::external_body]
    pub(crate) fn zeros(rows: usize, cols: usize) -> (m: U8Matrix)
        requires
            rows <= isize::MAX,
            cols <= isize::MAX,
            rows * cols <= isize::MAX,
        ensures
            grid_u8(m) == filled(rows as nat, cols as nat, 0u8),
    {
        U8Matrix { inner: ndarray::Array2::zeros((rows, cols)) }
    }

    /// Relies on ndarray's `IndexMut` for `[row, col]`: writes one cell.
    #[verifier::external_body]
    pub(crate) fn set(&mut self, i: usize, j: usize, v: u8)
        requires
            i < grid_u8(*old(self)).len(),
            j < grid_u8(*old(self))[i as int].len(),
        ensures
            grid_u8(*final(self)) == set_cell(grid_u8(*old(self)), i as int, j as int, v),
    {
        self.inner[[i, j]] = v;
    }

    /// Relies on ndarray's `Index` for `[row, col]`: reads one cell.
    #[verifier::external_body]
    pub(crate) fn get(&self, i: usize, j: usize) -> (r: u8)
        requires
            i < grid_u8(*self).len(),
            j < grid_u8(*self)[i as int].len(),
        ensures
            r == grid_u8(*self)[i as int][j as int],
    {
        self.inner[[i, j]]
    }

    /// Relies on ndarray's `nrows`: the number of rows.
    #[verifier::external_body]
    pub(crate) fn nrows(&self) -> (r: usize)
        ensures
            r == grid_u8(*self).len(),
    {
        self.inner.nrows()
    }

    /// Relies on ndarray's `ncols`: the number of cells in every row.
    #[verifier::external_body]
    pub(crate) fn ncols(&self) -> (r: usize)
        ensures
            is_rect(grid_u8(*self), r as nat),
    {
        self.inner.ncols()
    }

    /// The cells, row by row.
    pub fn to_rows(&self) -> (r: Vec<Vec<u8>>)
        ensures
            r@.len() == grid_u8(*self).len(),
            forall|i: int| 0 <= i < r@.len() ==> #[trigger] r@[i]@ == grid_u8(*self)[i],
    {
        let rows = self.nrows();
        let cols = self.ncols();
        let mut out: Vec<Vec<u8>> = Vec::new();
        let mut i: usize = 0;
        while i < rows
            invariant
                i <= rows,
                rows == grid_u8(*self).len(),
                is_rect(grid_u8(*self), cols as nat),
                out@.len() == i,
                forall|k: int| 0 <= k < i ==> #[trigger] out@[k]@ == grid_u8(*self)[k],
            decreases rows - i,
        {
            let mut row: Vec<u8> = Vec::new();
            let mut j: usize = 0;
            assert(grid_u8(*self)[i as int].len() == cols);
            while j < cols
                invariant
                    i < rows,
                    j <= cols,
                    rows == grid_u8(*self).len(),
                    grid_u8(*self)[i as int].len() == cols,
                    row@ == grid_u8(*self)[i as int].take(j as int),
                decreases cols - j,
            {
                row.push(self.get(i, j));
                assert(row@ =~= grid_u8(*self)[i as int].take(j as int + 1));
                j += 1;
            }
            assert(row@ =~= grid_u8(*self)[i as int]);
            out.push(row);
            i += 1;
        }
        out
    }
}

impl I32Matrix {
    /// Relies on ndarray's `Array2::from_elem`: a `rows x cols` matrix with
    /// `v` in every cell. It panics when the product of the non-zero axis
    /// lengths overflows `isize`.
    #[verifier::external_body]
    pub(crate) fn from_elem(rows: usize, cols: usize, v: i32) -> (m: I32Matrix)
        requires
            rows <= isize::MAX,
            cols <= isize::MAX,
            rows * cols <= isize::MAX,
        ensures
            grid_i32(m) == filled(rows as nat, cols as nat, v),
    {
        I32Matrix { inner: ndarray::Array2::from_elem((rows, cols), v) }
    }

    /// Relies on ndarray's `IndexMut` for `[row, col]`: writes one cell.
    #[verifier::external_body]
    pub(crate) fn set(&mut self, i: usize, j: usize, v: i32)
        requires
            i < grid_i32(*old(self)).len(),
            j < grid_i32(*old(self))[i as int].len(),
        ensures
            grid_i32(*final(self)) == set_cell(grid_i32(*old(self)), i as int, j as int, v),
    {
        self.inner[[i, j]] = v;
    }

    /// Relies on ndarray's `Index` for `[row, col]`: reads one cell.
    #[verifier::external_body]
    pub(crate) fn get(&self, i: usize, j: usize) -> (r: i32)
        requires
            i < grid_i32(*self).len(),
            j < grid_i32(*self)[i as int].len(),
        ensures
            r == grid_i32(*self)[i as int][j as int],
    {
        self.inner[[i, j]]
    }

    /// Relies on ndarray's `nrows`: the number of rows.
    #[verifier::external_body]
    pub(crate) fn nrows(&self) -> (r: usize)
        ensures
            r == grid_i32(*self).len(),
    {
        self.inner.nrows()
    }

    /// Relies on ndarray's `ncols`: the number of cells in every row.
    #[verifier::external_body]
    pub(crate) fn ncols(&self) -> (r: usize)
        ensures
            is_rect(grid_i32(*self), r as nat),
    {
        self.inner.ncols()
    }

    /// The cells, row by row.
    pub(crate) fn to_rows(&self) -> (r: Vec<Vec<i32>>)
        ensures
            r@.len() == grid_i32(*self).len(),
            forall|i: int| 0 <= i < r@.len() ==> #[trigger] r@[i]@ == grid_i32(*self)[i],
    {
        let rows = self.nrows();
        let cols = self.ncols();
        let mut out: Vec<Vec<i32>> = Vec::new();
        let mut i: usize = 0;
        while i < rows
            invariant
                i <= rows,
                rows == grid_i32(*self).len(),
                is_rect(grid_i32(*self), cols as nat),
                out@.len() == i,
                forall|k: int| 0 <= k < i ==> #[trigger] out@[k]@ == grid_i32(*self)[k],
            decreases rows - i,
        {
            let mut row: Vec<i32> = Vec::new();
            let mut j: usize = 0;
            assert(grid_i32(*self)[i as int].len() == cols);
            while j < cols
                invariant
                    i < rows,
                    j <= cols,
                    rows == grid_i32(*self).len(),
                    grid_i32(*self)[i as int].len() == cols,
                    row@ == grid_i32(*self)[i as int].take(j as int),
                decreases cols - j,
            {
                row.push(self.get(i, j));
                assert(row@ =~= grid_i32(*self)[i as int].take(j as int + 1));
                j += 1;
            }
            assert(row@ =~= grid_i32(*self)[i as int]);
            out.push(row);
            i += 1;
        }
        out
    }

    /// The sparse form of the matrix: every cell that differs from `fill`
    /// is stored, and no other.
    pub(crate) fn compress(&self, fill: i32) -> (r: SparseI32Matrix)
        requires
            forall|i: int|
                0 <= i < grid_i32(*self).len() ==> grid_i32(*self).len() * grid_i32(*self)[i].len()
                    <= isize::MAX,
        ensures
            sparse_cells(r) == cells_without(grid_i32(*self), fill),
    {
        let ghost g = grid_i32(*self);
        let rows = self.nrows();
        let cols = self.ncols();
        let mut indptr: Vec<usize> = Vec::new();
        indptr.push(0);
        let mut indices: Vec<usize> = Vec::new();
        let mut data: Vec<i32> = Vec::new();
        proof {
            if rows > 0 {
                assert(g[0].len() == cols);
            }
            lemma_rows_start(g, fill, cols as nat, indptr@, indices@, data@);
        }
        let mut i: usize = 0;
        while i < rows
            invariant
                g == grid_i32(*self),
                rows == g.len(),
                is_rect(g, cols as nat),
                rows > 0 ==> rows * cols <= isize::MAX,
                i <= rows,
                indptr@.len() == i + 1,
                indptr@[0] == 0,
                indptr@[i as int] == indices@.len(),
                data@.len() == indices@.len(),
                indices@.len() <= i * cols,
                forall|a: int, b: int| 0 <= a <= b <= i ==> indptr@[a] <= indptr@[b],
                compressed_rows(g, fill, cols as nat, i as int, indptr@, indices@, data@),
            decreases rows - i,
        {
            let start: usize = indices.len();
            let mut j: usize = 0;
            proof {
                assert(g[i as int].len() == cols);
                lemma_mul_step(i as int, cols as int, rows as int);
                lemma_row_start(g, fill, i as int, indices@, data@);
            }
            while j < cols
                invariant
                    g == grid_i32(*self),
                    rows == g.len(),
                    i < rows,
                    j <= cols,
                    g[i as int].len() == cols,
                    indptr@.len() == i + 1,
                    indptr@[i as int] == start,
                    start <= indices@.len(),
                    data@.len() == indices@.len(),
                    indices@.len() <= start + j,
                    compressed_rows(g, fill, cols as nat, i as int, indptr@, indices@, data@),
                    partial_row(g, fill, i as int, start as int, j as int, indices@, data@),
                decreases cols - j,
            {
                let v = self.get(i, j);
                if v != fill {
                    let ghost old_indices = indices@;
                    let ghost old_data = data@;
                    indices.push(j);
                    data.push(v);
                    proof {
                        lemma_push_keeps_rows(
                            g,
                            fill,
                            cols as nat,
                            i as int,
                            indptr@,
                            old_indices,
                            old_data,
                            j,
                            v,
                            indices@,
                            data@,
                        );
                        lemma_row_push(g, fill, i as int, start as int, j, old_indices, old_data, indices@, data@);
                    }
                } else {
                    proof {
                        lemma_row_skip(g, fill, i as int, start as int, j as int, indices@, data@);
                    }
                }
                j += 1;
            }
            let ghost old_indptr = indptr@;
            indptr.push(indices.len());
            proof {
                lemma_close_row(g, fill, cols as nat, i as int, old_indptr, indptr@, indices@, data@);
            }
            i += 1;
        }
        proof {
            if rows > 0 {
                assert(indices@.len() <= rows * cols);
            }
            lemma_compressed_cells(g, fill, rows as nat, cols as nat, indptr@, indices@, data@);
        }
        SparseI32Matrix::new_csr(rows, cols, indptr, indices, data)
    }
}

impl SparseI32Matrix {
    /// Relies on sprs's `CsMat::new`: the CSR matrix of shape `(rows, cols)`
    /// with the given compressed rows. It panics when sprs's structure check
    /// fails, which `valid_csr` rules out.
    #[verifier::external_body]
    pub(crate) fn new_csr(
        rows: usize,
        cols: usize,
        indptr: Vec<usize>,
        indices: Vec<usize>,
        data: Vec<i32>,
    ) -> (r: SparseI32Matrix)
        requires
            valid_csr(rows as nat, cols as nat, indptr@, indices@, data@),
        ensures
            sparse_cells(r) == csr_cells(rows as nat, cols as nat, indptr@, indices@, data@),
    {
        SparseI32Matrix { inner: sprs::CsMat::new((rows, cols), indptr, indices, data) }
    }

    /// Relies on sprs's `CsMat::get`: the value stored at row `i`, column `j`.
    #[verifier::external_body]
    pub(crate) fn get(&self, i: usize, j: usize) -> (r: Option<i32>)
        requires
            i < sparse_cells(*self).len(),
            j < sparse_cells(*self)[i as int].len(),
        ensures
            r == sparse_cells(*self)[i as int][j as int],
    {
        self.inner.get(i, j).copied()
    }

    /// The value stored at row `i`, column `j`, if any.
    pub fn stored(&self, i: usize, j: usize) -> (r: Option<i32>)
        requires
            i < sparse_cells(*self).len(),
            j < sparse_cells(*self)[i as int].len(),
        ensures
            r == sparse_cells(*self)[i as int][j as int],
    {
        self.get(i, j)
    }

    /// Relies on sprs's `CsMat::to_dense`: stored values in place, zero elsewhere.
    #[verifier::external_body]
    pub(crate) fn to_dense(&self) -> (r: I32Matrix)
        ensures
            grid_i32(r) == densified(sparse_cells(*self)),
    {
        I32Matrix { inner: self.inner.to_dense() }
    }

    /// The cells of the dense form, row by row: stored values, zero elsewhere.
    pub fn dense_rows(&self) -> (r: Vec<Vec<i32>>)
        ensures
            r@.len() == densified(sparse_cells(*self)).len(),
            forall|i: int| 0 <= i < r@.len() ==> #[trigger] r@[i]@ == densified(sparse_cells(*self))[i],
    {
        self.to_dense().to_rows()
    }
}

} // verus!
