//! Coordinate arithmetic of an N-dimensional toroidal grid stored as a flat
//! sequence: strides, flat indices, coordinates, and the Moore neighbourhood.

use vstd::arithmetic::div_mod::{
    lemma_fundamental_div_mod, lemma_fundamental_div_mod_converse, lemma_mod_bound,
};
use vstd::prelude::*;

verus! {

//================================================================================
// Strides and flat indices
//================================================================================

/// The stride of dimension `k`: the product of the first `k` extents.
pub open spec fn stride(dims: Seq<usize>, k: nat) -> nat
    decreases k,
{
    if k == 0 {
        1
    } else {
        stride(dims, (k - 1) as nat) * (dims[k - 1] as nat)
    }
}

/// Number of cells of a grid with the extents `dims`.
pub open spec fn cell_count(dims: Seq<usize>) -> nat {
    stride(dims, dims.len())
}

/// Every extent is at least 1.
pub open spec fn all_positive(dims: Seq<usize>) -> bool {
    forall|k: int| 0 <= k < dims.len() ==> #[trigger] dims[k] > 0
}

/// Number of offset vectors with entries -1, 0, +1 in `n` dimensions: `3^n`.
pub open spec fn offset_count(n: nat) -> nat
    decreases n,
{
    if n == 0 {
        1
    } else {
        3 * offset_count((n - 1) as nat)
    }
}

/// A grid shape that this machine can hold: positive extents, and both the
/// number of cells and the number of offset vectors fit an index.
pub open spec fn valid_shape(dims: Seq<usize>) -> bool {
    &&& all_positive(dims)
    &&& cell_count(dims) <= usize::MAX
    &&& offset_count(dims.len()) <= usize::MAX
}

/// `coord` names a cell of the grid: one coordinate per dimension, each below
/// its extent.
pub open spec fn valid_coord(dims: Seq<usize>, coord: Seq<usize>) -> bool {
    &&& coord.len() == dims.len()
    &&& forall|k: int| 0 <= k < dims.len() ==> #[trigger] coord[k] < dims[k]
}

/// The part of the flat index that the first `k` coordinates make up: the sum
/// of `coord[j] * stride(j)` over `j < k`.
pub open spec fn flat_index(dims: Seq<usize>, coord: Seq<usize>, k: nat) -> nat
    decreases k,
{
    if k == 0 {
        0
    } else {
        flat_index(dims, coord, (k - 1) as nat) + (coord[k - 1] as nat) * stride(
            dims,
            (k - 1) as nat,
        )
    }
}

/// The flat index of the cell at `coord`.
pub open spec fn index_of(dims: Seq<usize>, coord: Seq<usize>) -> nat {
    flat_index(dims, coord, dims.len())
}

/// What is left of `index` once the coordinates of the dimensions `k` and
/// above have been taken out of it.
pub open spec fn remainder_at(dims: Seq<usize>, index: nat, k: nat) -> nat
    decreases dims.len() - k,
{
    if k >= dims.len() {
        index
    } else {
        remainder_at(dims, index, k + 1) % stride(dims, k)
    }
}

/// Coordinate `k` of the cell with the flat index `index`.
pub open spec fn coordinate_at(dims: Seq<usize>, index: nat, k: nat) -> nat {
    remainder_at(dims, index, k + 1) / stride(dims, k)
}

/// The coordinate of the cell with the flat index `index`.
pub open spec fn coord_of(dims: Seq<usize>, index: nat) -> Seq<usize> {
    Seq::new(dims.len(), |k: int| coordinate_at(dims, index, k as nat) as usize)
}

/// Strides of positive extents are positive.
pub proof fn lemma_stride_positive(dims: Seq<usize>, k: nat)
    requires
        all_positive(dims),
        k <= dims.len(),
    ensures
        stride(dims, k) >= 1,
    decreases k,
{
    if k > 0 {
        lemma_stride_positive(dims, (k - 1) as nat);
        assert(dims[k - 1] > 0);
        assert(stride(dims, (k - 1) as nat) * (dims[k - 1] as nat) >= 1) by (nonlinear_arith)
            requires
                stride(dims, (k - 1) as nat) >= 1,
                dims[k - 1] as nat >= 1,
        ;
    }
}

/// Strides of positive extents grow with the dimension.
pub proof fn lemma_stride_monotonic(dims: Seq<usize>, j: nat, k: nat)
    requires
        all_positive(dims),
        j <= k <= dims.len(),
    ensures
        stride(dims, j) <= stride(dims, k),
    decreases k,
{
    if j < k {
        lemma_stride_monotonic(dims, j, (k - 1) as nat);
        lemma_stride_positive(dims, (k - 1) as nat);
        assert(dims[k - 1] > 0);
        assert(stride(dims, (k - 1) as nat) * (dims[k - 1] as nat) >= stride(
            dims,
            (k - 1) as nat,
        )) by (nonlinear_arith)
            requires
                stride(dims, (k - 1) as nat) >= 1,
                dims[k - 1] as nat >= 1,
        ;
    }
}

/// Offset counts grow with the number of dimensions.
pub proof fn lemma_offset_count_monotonic(j: nat, k: nat)
    requires
        j <= k,
    ensures
        1 <= offset_count(j) <= offset_count(k),
    decreases k,
{
    if j < k {
        lemma_offset_count_monotonic(j, (k - 1) as nat);
    } else if k > 0 {
        lemma_offset_count_monotonic((j - 1) as nat, (k - 1) as nat);
    }
}

/// The first `k` coordinates of a cell make up less than the stride of
/// dimension `k`.
pub proof fn lemma_flat_index_bound(dims: Seq<usize>, coord: Seq<usize>, k: nat)
    requires
        valid_coord(dims, coord),
        k <= dims.len(),
    ensures
        flat_index(dims, coord, k) < stride(dims, k),
    decreases k,
{
    if k > 0 {
        let j = (k - 1) as nat;
        lemma_flat_index_bound(dims, coord, j);
        assert(coord[k - 1] < dims[k - 1]);
        assert(flat_index(dims, coord, j) + (coord[k - 1] as nat) * stride(dims, j) < stride(
            dims,
            j,
        ) * (dims[k - 1] as nat)) by (nonlinear_arith)
            requires
                flat_index(dims, coord, j) < stride(dims, j),
                (coord[k - 1] as nat) < (dims[k - 1] as nat),
        ;
    }
}

/// A coordinate that names a cell has a flat index below the number of cells.
pub proof fn lemma_index_in_range(dims: Seq<usize>, coord: Seq<usize>)
    requires
        valid_coord(dims, coord),
    ensures
        index_of(dims, coord) < cell_count(dims),
{
    lemma_flat_index_bound(dims, coord, dims.len());
}

/// Taking the flat index of a cell apart leaves, below dimension `k`, what
/// the first `k` coordinates make up.
proof fn lemma_remainder_of_index(dims: Seq<usize>, coord: Seq<usize>, k: nat)
    requires
        valid_coord(dims, coord),
        k <= dims.len(),
    ensures
        remainder_at(dims, index_of(dims, coord), k) == flat_index(dims, coord, k),
    decreases dims.len() - k,
{
    if k < dims.len() {
        lemma_remainder_of_index(dims, coord, k + 1);
        lemma_flat_index_bound(dims, coord, k);
        let low = flat_index(dims, coord, k) as int;
        let s = stride(dims, k) as int;
        let c = coord[k as int] as int;
        assert(flat_index(dims, coord, k + 1) == low + c * s);
        lemma_fundamental_div_mod_converse(low + c * s, s, c, low);
    }
}

/// Coordinate `k` of the flat index of a cell is the cell's coordinate `k`.
proof fn lemma_coordinate_of_index(dims: Seq<usize>, coord: Seq<usize>, k: nat)
    requires
        valid_coord(dims, coord),
        k < dims.len(),
    ensures
        coordinate_at(dims, index_of(dims, coord), k) == coord[k as int],
{
    lemma_remainder_of_index(dims, coord, k + 1);
    lemma_flat_index_bound(dims, coord, k);
    let low = flat_index(dims, coord, k) as int;
    let s = stride(dims, k) as int;
    let c = coord[k as int] as int;
    assert(flat_index(dims, coord, k + 1) == low + c * s);
    lemma_fundamental_div_mod_converse(low + c * s, s, c, low);
}

/// Round trip: the coordinate of the flat index of a cell is the cell's
/// coordinate.
pub proof fn lemma_coord_of_index_of(dims: Seq<usize>, coord: Seq<usize>)
    requires
        valid_coord(dims, coord),
    ensures
        coord_of(dims, index_of(dims, coord)) == coord,
{
    let back = coord_of(dims, index_of(dims, coord));
    assert forall|k: int| 0 <= k < dims.len() implies back[k] == coord[k] by {
        lemma_coordinate_of_index(dims, coord, k as nat);
    }
    assert(back =~= coord);
}

/// Every remainder below the top dimension is below its stride, and so is
/// the whole index when it is the index of a cell.
proof fn lemma_remainder_bound(dims: Seq<usize>, index: nat, k: nat)
    requires
        all_positive(dims),
        k <= dims.len(),
        k < dims.len() || index < cell_count(dims),
    ensures
        remainder_at(dims, index, k) < stride(dims, k),
{
    if k < dims.len() {
        lemma_stride_positive(dims, k);
        lemma_mod_bound(remainder_at(dims, index, k + 1) as int, stride(dims, k) as int);
    }
}

/// The coordinates taken out of `index` make up what was taken out of it.
proof fn lemma_flat_index_of_coord(dims: Seq<usize>, index: nat, k: nat)
    requires
        all_positive(dims),
        cell_count(dims) <= usize::MAX,
        index < cell_count(dims),
        k <= dims.len(),
    ensures
        flat_index(dims, coord_of(dims, index), k) == remainder_at(dims, index, k),
    decreases k,
{
    if k == 0 {
        if dims.len() > 0 {
            assert(remainder_at(dims, index, 0) == remainder_at(dims, index, 1) % 1);
        } else {
            assert(cell_count(dims) == 1);
        }
    } else {
        let j = (k - 1) as nat;
        lemma_flat_index_of_coord(dims, index, j);
        lemma_stride_positive(dims, j);
        lemma_coordinate_bound(dims, index, j);
        let x = remainder_at(dims, index, k) as int;
        let s = stride(dims, j) as int;
        lemma_fundamental_div_mod(x, s);
        assert(coord_of(dims, index)[j as int] == coordinate_at(dims, index, j));
        assert(s * (x / s) == (x / s) * s) by (nonlinear_arith);
    }
}

/// Each coordinate of a cell's index is below its extent.
proof fn lemma_coordinate_bound(dims: Seq<usize>, index: nat, k: nat)
    requires
        all_positive(dims),
        cell_count(dims) <= usize::MAX,
        index < cell_count(dims),
        k < dims.len(),
    ensures
        coordinate_at(dims, index, k) < dims[k as int],
{
    lemma_remainder_bound(dims, index, k + 1);
    lemma_stride_positive(dims, k);
    let x = remainder_at(dims, index, k + 1) as int;
    let s = stride(dims, k) as int;
    let d = dims[k as int] as int;
    assert(x < s * d);
    assert(x / s < d) by (nonlinear_arith)
        requires
            0 <= x < s * d,
            s > 0,
    ;
}

/// Round trip: the coordinate of a cell's index names a cell, and its flat
/// index is that index.
pub proof fn lemma_index_of_coord_of(dims: Seq<usize>, index: nat)
    requires
        all_positive(dims),
        cell_count(dims) <= usize::MAX,
        index < cell_count(dims),
    ensures
        valid_coord(dims, coord_of(dims, index)),
        index_of(dims, coord_of(dims, index)) == index,
{
    let coord = coord_of(dims, index);
    assert forall|k: int| 0 <= k < dims.len() implies #[trigger] coord[k] < dims[k] by {
        lemma_coordinate_bound(dims, index, k as nat);
    }
    lemma_flat_index_of_coord(dims, index, dims.len());
}

//================================================================================
// The Moore neighbourhood
//================================================================================

/// `k` with its lowest `d` base-3 digits removed.
pub open spec fn shifted(k: nat, d: nat) -> nat
    decreases d,
{
    if d == 0 {
        k
    } else {
        shifted(k, (d - 1) as nat) / 3
    }
}

/// Base-3 digit `d` of the offset index `k`. The offset vector with the
/// index `k` moves by this digit minus 1 along dimension `d`.
pub open spec fn offset_digit(k: nat, d: nat) -> nat {
    shifted(k, d) % 3
}

/// Whether the offset vector with the index `k` is zero in each of `n`
/// dimensions.
pub open spec fn is_zero_offset(k: nat, n: nat) -> bool {
    forall|d: nat| d < n ==> #[trigger] offset_digit(k, d) == 1
}

/// The coordinate reached from `coord` by the offset vector with the index
/// `k`, wrapping around in every dimension.
pub open spec fn neighbor_coord(dims: Seq<usize>, coord: Seq<usize>, k: nat) -> Seq<usize> {
    Seq::new(
        dims.len(),
        |d: int| ((coord[d] + offset_digit(k, d as nat) - 1) % (dims[d] as int)) as usize,
    )
}

/// Flat indices of the cells that the first `k` offset vectors reach from
/// `coord`, in the order of their offset indices, without the zero offset.
pub open spec fn neighbors_among(dims: Seq<usize>, coord: Seq<usize>, k: nat) -> Seq<usize>
    decreases k,
{
    if k == 0 {
        Seq::empty()
    } else {
        let earlier = neighbors_among(dims, coord, (k - 1) as nat);
        if is_zero_offset((k - 1) as nat, dims.len()) {
            earlier
        } else {
            earlier.push(index_of(dims, neighbor_coord(dims, coord, (k - 1) as nat)) as usize)
        }
    }
}

/// Flat indices of the Moore neighbourhood of `coord`: the cells at every
/// offset vector with entries -1, 0, +1 but the zero vector, in increasing
/// order of the offset index.
pub open spec fn moore_neighbors(dims: Seq<usize>, coord: Seq<usize>) -> Seq<usize> {
    neighbors_among(dims, coord, offset_count(dims.len()))
}

/// A step of -1, 0 or +1 from a coordinate, wrapped around, is a coordinate.
pub proof fn lemma_wrap_step(c: int, digit: int, extent: int)
    requires
        0 <= c < extent,
        0 <= digit <= 2,
    ensures
        (c + digit - 1) % extent == (if digit == 0 {
            if c == 0 {
                extent - 1
            } else {
                c - 1
            }
        } else if digit == 1 {
            c
        } else {
            if c + 1 == extent {
                0
            } else {
                c + 1
            }
        }),
{
    let x = c + digit - 1;
    if x < 0 {
        lemma_fundamental_div_mod_converse(x, extent, -1, extent - 1);
    } else if x >= extent {
        lemma_fundamental_div_mod_converse(x, extent, 1, 0);
    } else {
        lemma_fundamental_div_mod_converse(x, extent, 0, x);
    }
}

/// Every offset vector leads from a cell to a cell.
pub proof fn lemma_neighbor_coord_valid(dims: Seq<usize>, coord: Seq<usize>, k: nat)
    requires
        valid_coord(dims, coord),
    ensures
        valid_coord(dims, neighbor_coord(dims, coord, k)),
{
    let next = neighbor_coord(dims, coord, k);
    assert forall|d: int| 0 <= d < dims.len() implies #[trigger] next[d] < dims[d] by {
        assert(coord[d] < dims[d]);
        lemma_wrap_step(coord[d] as int, offset_digit(k, d as nat) as int, dims[d] as int);
    }
}

/// Every neighbour is a cell of the grid.
pub proof fn lemma_neighbors_in_range(dims: Seq<usize>, coord: Seq<usize>, k: nat)
    requires
        valid_coord(dims, coord),
        cell_count(dims) <= usize::MAX,
    ensures
        forall|t: int|
            0 <= t < neighbors_among(dims, coord, k).len() ==> #[trigger] neighbors_among(
                dims,
                coord,
                k,
            )[t] < cell_count(dims),
    decreases k,
{
    if k > 0 {
        let earlier = neighbors_among(dims, coord, (k - 1) as nat);
        let all = neighbors_among(dims, coord, k);
        lemma_neighbors_in_range(dims, coord, (k - 1) as nat);
        lemma_neighbor_coord_valid(dims, coord, (k - 1) as nat);
        lemma_index_in_range(dims, neighbor_coord(dims, coord, (k - 1) as nat));
        assert forall|t: int| 0 <= t < all.len() implies #[trigger] all[t] < cell_count(dims) by {
            if t < earlier.len() {
                assert(all[t] == earlier[t]);
            }
        }
    }
}

/// The higher digits of `k` are the digits of `k / 3`.
proof fn lemma_shifted_step(k: nat, d: nat)
    ensures
        shifted(k, d + 1) == shifted(k / 3, d),
    decreases d,
{
    if d == 0 {
        assert(shifted(k, 1) == shifted(k, 0) / 3);
    } else {
        lemma_shifted_step(k, (d - 1) as nat);
        assert(shifted(k, d + 1) == shifted(k, d) / 3);
        assert(shifted(k / 3, d) == shifted(k / 3, (d - 1) as nat) / 3);
    }
}

/// The offset vector with the index `k` is zero in `n + 1` dimensions exactly
/// when its lowest digit is 1 and the rest is zero in `n` dimensions.
proof fn lemma_zero_offset_step(k: nat, n: nat)
    ensures
        is_zero_offset(k, n + 1) <==> (k % 3 == 1 && is_zero_offset(k / 3, n)),
{
    if is_zero_offset(k, n + 1) {
        assert(offset_digit(k, 0) == 1);
        assert forall|d: nat| d < n implies #[trigger] offset_digit(k / 3, d) == 1 by {
            lemma_shifted_step(k, d);
            assert(offset_digit(k, d + 1) == 1);
        }
    }
    if k % 3 == 1 && is_zero_offset(k / 3, n) {
        assert forall|d: nat| d < n + 1 implies #[trigger] offset_digit(k, d) == 1 by {
            if d > 0 {
                lemma_shifted_step(k, (d - 1) as nat);
                assert(offset_digit(k / 3, (d - 1) as nat) == 1);
            }
        }
    }
}

/// The index of the zero offset vector in `n` dimensions: every digit is 1.
pub open spec fn zero_offset_index(n: nat) -> nat
    decreases n,
{
    if n == 0 {
        0
    } else {
        3 * zero_offset_index((n - 1) as nat) + 1
    }
}

/// Among the offset vectors of `n` dimensions exactly one is zero.
pub proof fn lemma_zero_offset_is_unique(k: nat, n: nat)
    requires
        k < offset_count(n),
    ensures
        zero_offset_index(n) < offset_count(n),
        is_zero_offset(k, n) <==> k == zero_offset_index(n),
    decreases n,
{
    if n == 0 {
    } else {
        let m = (n - 1) as nat;
        lemma_zero_offset_is_unique(k / 3, m);
        lemma_zero_offset_step(k, m);
    }
}

/// How many neighbours the first `k` offset vectors reach: all of them but
/// the zero offset.
proof fn lemma_neighbors_among_len(dims: Seq<usize>, coord: Seq<usize>, k: nat)
    requires
        k <= offset_count(dims.len()),
    ensures
        neighbors_among(dims, coord, k).len() == (if k > zero_offset_index(dims.len()) {
            k - 1
        } else {
            k as int
        }),
    decreases k,
{
    if k > 0 {
        lemma_neighbors_among_len(dims, coord, (k - 1) as nat);
        lemma_zero_offset_is_unique((k - 1) as nat, dims.len());
    }
}

/// A cell of an `N`-dimensional grid has `3^N - 1` neighbours.
pub proof fn lemma_moore_neighbors_len(dims: Seq<usize>, coord: Seq<usize>)
    ensures
        moore_neighbors(dims, coord).len() == offset_count(dims.len()) - 1,
{
    lemma_offset_count_monotonic(0, dims.len());
    lemma_zero_offset_is_unique(0, dims.len());
    lemma_neighbors_among_len(dims, coord, offset_count(dims.len()));
}

} // verus!
