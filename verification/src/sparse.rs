//! Building a compressed sparse row matrix of `sprs` from its raw parts.
use vstd::prelude::*;
use sprs::CsMat;

verus! {

/// A matrix of `sprs` in compressed sparse row form. Verus does not read inside it.
#[verifier::external_body]
#[verifier::reject_recursive_types(N)]
pub struct SprsCsr<N> {
    pub matrix: CsMat<N>,
}

/// A CSR matrix of `sprs`, with the shape and the raw parts it holds: row pointers,
/// column indices and stored values.
#[verifier::reject_recursive_types(N)]
pub struct CsrMatrix<N> {
    pub inner: SprsCsr<N>,
    pub shape: Ghost<(usize, usize)>,
    pub indptr: Ghost<Seq<usize>>,
    pub indices: Ghost<Seq<usize>>,
    pub data: Ghost<Seq<N>>,
}

/// The raw parts describe a valid matrix of `rows` rows and `cols` columns in compressed
/// sparse row form: `indptr` has `rows + 1` non-decreasing entries, the last at most half
/// of `usize::MAX`; its last entry minus its first is the number of stored entries, which
/// is the length of `indices` and of the data; and within each row the column indices
/// are strictly increasing and below `cols`.
pub open spec fn csr_valid(rows: int, cols: int, indptr: Seq<usize>, indices: Seq<usize>, data_len: int) -> bool {
    &&& indptr.len() == rows + 1
    &&& data_len == indices.len()
    &&& forall|i: int| 0 <= i < rows ==> #[trigger] indptr[i] <= indptr[i + 1]
    &&& indptr[rows] <= usize::MAX / 2
    &&& indptr[rows] - indptr[0] == indices.len()
    &&& forall|r: int, a: int, b: int|
        #![trigger indptr[r], indices[a], indices[b]]
        0 <= r < rows && indptr[r] - indptr[0] <= a < b < indptr[r + 1] - indptr[0] ==> indices[a] < indices[b]
    &&& forall|r: int, a: int|
        #![trigger indptr[r], indices[a]]
        0 <= r < rows && indptr[r] - indptr[0] <= a < indptr[r + 1] - indptr[0] ==> indices[a] < cols
}

/// `CsMat::new`: a CSR matrix of the given shape made of the raw parts. It panics unless
/// the parts are valid (`csr_valid`), which the caller must show. Claimed: the matrix
/// has shape `(rows, cols)` and stores the given row pointers, column indices and
/// values as they are (`CsMat::new` keeps the three vectors it is given once they pass
/// its checks).
#[verifier::external_body]
fn csr_new<N>(rows: usize, cols: usize, indptr: Vec<usize>, indices: Vec<usize>, data: Vec<N>) -> (m: CsrMatrix<N>)
    requires
        csr_valid(rows as int, cols as int, indptr@, indices@, data@.len() as int),
    ensures
        m.shape@ == (rows, cols),
        m.indptr@ == indptr@,
        m.indices@ == indices@,
        m.data@ == data@,
{
    let parts = (Ghost(indptr@), Ghost(indices@), Ghost(data@));
    CsrMatrix {
        inner: SprsCsr { matrix: CsMat::new((rows, cols), indptr, indices, data) },
        shape: Ghost((rows, cols)),
        indptr: parts.0,
        indices: parts.1,
        data: parts.2,
    }
}

/// The stored column indices from `start` to `end` increase strictly and stay below `cols`.
pub open spec fn row_valid(indices: Seq<usize>, start: int, end: int, cols: int) -> bool {
    &&& forall|x: int, y: int| start <= x < y < end ==> #[trigger] indices[x] < #[trigger] indices[y]
    &&& forall|x: int| start <= x < end ==> #[trigger] indices[x] < cols
}

fn row_ok(indices: &[usize], start: usize, end: usize, cols: usize) -> (r: bool)
    requires
        start <= end <= indices@.len(),
    ensures
        r == row_valid(indices@, start as int, end as int, cols as int),
{
    let mut a: usize = start;
    while a < end
        invariant
            start <= end <= indices@.len(),
            start <= a <= end,
            row_valid(indices@, start as int, a as int, cols as int),
        decreases end - a,
    {
        if indices[a] >= cols {
            return false;
        }
        if a > start && indices[a - 1] >= indices[a] {
            return false;
        }
        proof {
            assert forall|x: int, y: int| start <= x < y < a + 1 implies #[trigger] indices@[x] < #[trigger] indices@[y] by {
                if y == a && x < a - 1 {
                    assert(indices@[x] < indices@[a - 1]);
                }
            }
        }
        a = a + 1;
    }
    true
}

/// Whether the raw parts describe a valid CSR matrix (`csr_valid`), as `CsMat::new`
/// checks before it builds one.
pub fn csr_parts_valid(rows: usize, cols: usize, indptr: &[usize], indices: &[usize], data_len: usize) -> (r: bool)
    ensures
        r == csr_valid(rows as int, cols as int, indptr@, indices@, data_len as int),
{
    let len = indptr.len();
    if rows == usize::MAX || len != rows + 1 || data_len != indices.len() {
        return false;
    }
    let mut i: usize = 0;
    while i < rows
        invariant
            indptr@.len() == rows + 1,
            i <= rows,
            forall|k: int| 0 <= k < i ==> #[trigger] indptr@[k] <= indptr@[k + 1],
        decreases rows - i,
    {
        if indptr[i] > indptr[i + 1] {
            return false;
        }
        i = i + 1;
    }
    proof {
        assert forall|k: int| 0 <= k <= rows implies #[trigger] indptr@[k] >= indptr@[0] by {
            lemma_indptr_monotone(indptr@, rows as int, 0, k);
        }
    }
    if indptr[rows] > usize::MAX / 2 || indptr[rows] - indptr[0] != indices.len() {
        return false;
    }
    let off = indptr[0];
    let mut r: usize = 0;
    while r < rows
        invariant
            indptr@.len() == rows + 1,
            r <= rows,
            off == indptr@[0],
            forall|k: int| 0 <= k < rows ==> #[trigger] indptr@[k] <= indptr@[k + 1],
            forall|k: int| 0 <= k <= rows ==> #[trigger] indptr@[k] >= indptr@[0],
            indptr@[rows as int] - indptr@[0] == indices@.len(),
            forall|q: int|
                0 <= q < r ==> #[trigger] row_valid(indices@, indptr@[q] - indptr@[0], indptr@[q + 1] - indptr@[0], cols as int),
        decreases rows - r,
    {
        proof {
            lemma_indptr_monotone(indptr@, rows as int, r + 1, rows as int);
        }
        let start = indptr[r] - off;
        let end = indptr[r + 1] - off;
        if !row_ok(indices, start, end, cols) {
            return false;
        }
        r = r + 1;
    }
    proof {
        assert forall|q: int, a: int, b: int|
            #![trigger indptr@[q], indices@[a], indices@[b]]
            0 <= q < rows && indptr@[q] - indptr@[0] <= a < b < indptr@[q + 1] - indptr@[0] implies indices@[a] < indices@[b] by {
            assert(row_valid(indices@, indptr@[q] - indptr@[0], indptr@[q + 1] - indptr@[0], cols as int));
        }
        assert forall|q: int, a: int|
            #![trigger indptr@[q], indices@[a]]
            0 <= q < rows && indptr@[q] - indptr@[0] <= a < indptr@[q + 1] - indptr@[0] implies indices@[a] < cols by {
            assert(row_valid(indices@, indptr@[q] - indptr@[0], indptr@[q + 1] - indptr@[0], cols as int));
        }
    }
    true
}

proof fn lemma_indptr_monotone(indptr: Seq<usize>, rows: int, i: int, j: int)
    requires
        indptr.len() == rows + 1,
        0 <= i <= j <= rows,
        forall|k: int| 0 <= k < rows ==> #[trigger] indptr[k] <= indptr[k + 1],
    ensures
        indptr[i] <= indptr[j],
    decreases j - i,
{
    if i < j {
        lemma_indptr_monotone(indptr, rows, i, j - 1);
        assert(indptr[j - 1] <= indptr[j]);
    }
}

/// Why a sparse matrix could not be built.
#[derive(Debug)]
pub enum SparseError {
    /// `indptr` has `got` entries where `expected` (the rows plus one) are needed.
    IndptrLength { got: usize, expected: usize },
}

fn copy_all<T: Copy>(s: &[T]) -> (r: Vec<T>)
    ensures
        r@ == s@,
{
    let mut r: Vec<T> = Vec::new();
    let mut i: usize = 0;
    while i < s.len()
        invariant
            i <= s@.len(),
            r@ == s@.take(i as int),
        decreases s@.len() - i,
    {
        r.push(s[i]);
        i = i + 1;
        proof {
            assert(r@ =~= s@.take(i as int));
        }
    }
    proof {
        assert(s@.take(i as int) =~= s@);
    }
    r
}

/// Builds a `rows` x `cols` CSR matrix from its data, column indices and row pointers;
/// refused when `indptr` does not have `rows + 1` entries.
pub fn build_csr<N: Copy>(data: &[N], indices: &[usize], indptr: &[usize], rows: usize, cols: usize) -> (r: Result<
    CsrMatrix<N>,
    SparseError,
>)
    requires
        rows < usize::MAX,
        indptr@.len() == rows + 1 ==> csr_valid(rows as int, cols as int, indptr@, indices@, data@.len() as int),
    ensures
        indptr@.len() != rows + 1 <==> (r matches Err(SparseError::IndptrLength { got, expected }) && got == indptr@.len()
            && expected == rows + 1),
        r is Err ==> indptr@.len() != rows + 1,
        r matches Ok(m) ==> m.shape@ == (rows, cols) && m.indptr@ == indptr@ && m.indices@ == indices@ && m.data@
            == data@,
{
    let indptr_owned = copy_all(indptr);
    let indices_owned = copy_all(indices);
    let data_owned = copy_all(data);
    if indptr.len() != rows + 1 {
        return Err(SparseError::IndptrLength { got: indptr.len(), expected: rows + 1 });
    }
    Ok(csr_new(rows, cols, indptr_owned, indices_owned, data_owned))
}

} // verus!
