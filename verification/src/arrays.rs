use vstd::prelude::*;
use ndarray::{Array1, Array2};

verus! {

/// Neighbor indices held in a two-dimensional ndarray array: one row per query
/// point, one column per neighbor. The array is private; it is made and read only
/// through the functions below.
#[verifier::external_body]
pub struct NeighborIndices {
    grid: Array2<usize>,
}

/// Class labels held in a one-dimensional ndarray array. The array is private; it
/// is made and read only through the functions below.
#[verifier::external_body]
pub struct Labels {
    values: Array1<i64>,
}

/// The rows of the neighbor-index array, in row-major order.
pub uninterp spec fn neighbor_rows(a: NeighborIndices) -> Seq<Seq<usize>>;

/// The entries of the label array, in order.
pub uninterp spec fn label_seq(a: Labels) -> Seq<i64>;

/// Calls ndarray's `ArrayBase::dim` on the index array: the number of rows and of
/// columns. An ndarray array is rectangular, so every row has that many columns.
#[verifier::external_body]
pub(crate) fn grid_dim(a: &NeighborIndices) -> (r: (usize, usize))
    ensures
        r.0 == neighbor_rows(*a).len(),
        forall|i: int| 0 <= i < r.0 ==> #[trigger] neighbor_rows(*a)[i].len() == r.1,
{
    a.grid.dim()
}

/// Indexes the index array with `[[i, j]]` (ndarray's `Index` impl): the entry in row
/// `i`, column `j`. Out-of-bounds indices panic there, so they are excluded.
#[verifier::external_body]
pub(crate) fn grid_get(a: &NeighborIndices, i: usize, j: usize) -> (r: usize)
    requires
        i < neighbor_rows(*a).len(),
        j < neighbor_rows(*a)[i as int].len(),
    ensures
        r == neighbor_rows(*a)[i as int][j as int],
{
    a.grid[[i, j]]
}

/// Calls ndarray's `ArrayBase::len` on the label array: its number of entries.
#[verifier::external_body]
pub(crate) fn labels_len(a: &Labels) -> (r: usize)
    ensures
        r == label_seq(*a).len(),
{
    a.values.len()
}

/// Indexes the label array with `[i]` (ndarray's `Index` impl): entry `i`.
/// Out-of-bounds indices panic there, so they are excluded.
#[verifier::external_body]
pub(crate) fn labels_get(a: &Labels, i: usize) -> (r: i64)
    requires
        i < label_seq(*a).len(),
    ensures
        r == label_seq(*a)[i as int],
{
    a.values[i]
}

/// Calls ndarray's `Array1::from_vec`: a one-dimensional array holding the entries
/// of `v` in order.
#[verifier::external_body]
fn labels_from_vec(v: Vec<i64>) -> (r: Labels)
    ensures
        label_seq(r) == v@,
{
    Labels { values: Array1::from_vec(v) }
}

/// The product of the axis lengths of a `rows` by `cols` shape, leaving out the axes
/// of length 0.
pub open spec fn nonzero_extent(rows: nat, cols: nat) -> nat {
    (if rows == 0 { 1 } else { rows }) * (if cols == 0 { 1 } else { cols })
}

/// Calls ndarray's `Array2::from_shape_vec` with shape `(rows, cols)`: the entries of
/// `v` read in row-major order. ndarray returns an error when the product of the
/// non-zero axis lengths exceeds `isize::MAX` or when the shape does not hold exactly
/// `v.len()` entries; such shapes are excluded.
#[verifier::external_body]
fn grid_from_shape_vec(rows: usize, cols: usize, v: Vec<usize>) -> (r: NeighborIndices)
    requires
        nonzero_extent(rows as nat, cols as nat) <= isize::MAX,
        rows * cols == v.len(),
    ensures
        neighbor_rows(r).len() == rows,
        forall|i: int| 0 <= i < rows ==> #[trigger] neighbor_rows(r)[i] == v@.subrange(i * cols, i * cols + cols),
{
    NeighborIndices { grid: Array2::from_shape_vec((rows, cols), v).unwrap() }
}

impl Labels {
    /// The labels `v`, in order.
    pub fn from_vec(v: Vec<i64>) -> (r: Labels)
        ensures
            label_seq(r) == v@,
    {
        labels_from_vec(v)
    }
}

impl NeighborIndices {
    /// The neighbor indices `v` read as `rows` rows of `cols` entries each (row-major);
    /// `None` when `v` does not hold exactly `rows * cols` entries, or when the product
    /// of the non-zero axis lengths exceeds `isize::MAX` (ndarray refuses such shapes).
    pub fn from_shape_vec(rows: usize, cols: usize, v: Vec<usize>) -> (r: Option<NeighborIndices>)
        ensures
            r is Some <==> (rows * cols == v.len() && nonzero_extent(rows as nat, cols as nat) <= isize::MAX),
            r matches Some(g) ==> {
                &&& neighbor_rows(g).len() == rows
                &&& forall|i: int| 0 <= i < rows ==> #[trigger] neighbor_rows(g)[i] == v@.subrange(
                    i * cols,
                    i * cols + cols,
                )
            },
    {
        let r1: usize = if rows == 0 {
            1
        } else {
            rows
        };
        let c1: usize = if cols == 0 {
            1
        } else {
            cols
        };
        let extent = r1.checked_mul(c1);
        let fits = match extent {
            Some(e) => e <= isize::MAX as usize,
            None => false,
        };
        if !fits {
            return None;
        }
        assert(nonzero_extent(rows as nat, cols as nat) == r1 * c1);
        assert(r1 * c1 <= isize::MAX);
        assert(rows * cols <= r1 * c1) by (nonlinear_arith)
            requires
                r1 == (if rows == 0 { 1usize } else { rows }),
                c1 == (if cols == 0 { 1usize } else { cols }),
        ;
        let p = rows * cols;
        if p == v.len() {
            Some(grid_from_shape_vec(rows, cols, v))
        } else {
            None
        }
    }
}

} // verus!
