use vstd::prelude::*;
use multiarray::Array3D;

verus! {

/// A `width × height × 3` array of `u128` cells, stored in a
/// `multiarray::Array3D`; what it holds is `grid_cells`, its shape
/// `grid_extents`.
#[verifier::external_body]
pub struct Grid {
    cells: Array3D<u128>,
}

/// The cells of the array, in C order: cell `(x, y, c)` at `(x * height + y) * 3 + c`.
pub uninterp spec fn grid_cells(g: Grid) -> Seq<u128>;

/// The extents of the array, one per dimension.
pub uninterp spec fn grid_extents(g: Grid) -> Seq<nat>;

/// Relies on `MultiArray::new`: an array of the given extents, laid out in
/// C order, every cell `0`.
#[verifier::external_body]
pub(crate) fn grid_new(width: usize, height: usize) -> (g: Grid)
    requires
        width > 0,
        height > 0,
        width * height <= 0x100_0000,
    ensures
        grid_extents(g) == seq![width as nat, height as nat, 3nat],
        grid_cells(g) == Seq::new((width * height * 3) as nat, |i: int| 0u128),
{
    Grid { cells: Array3D::new([width, height, 3], 0u128) }
}

/// Relies on `Index` of `MultiArray`: the cell at `(x, y, c)`, in C order.
#[verifier::external_body]
pub(crate) fn grid_get(g: &Grid, x: usize, y: usize, c: usize) -> (v: u128)
    requires
        grid_extents(*g).len() == 3,
        x < grid_extents(*g)[0],
        y < grid_extents(*g)[1],
        c < grid_extents(*g)[2],
    ensures
        v == grid_cells(*g)[(x * grid_extents(*g)[1] + y) * grid_extents(*g)[2] + c],
{
    g.cells[[x, y, c]]
}

/// Relies on `IndexMut` of `MultiArray`: writes the cell at `(x, y, c)`, in
/// C order, and no other.
#[verifier::external_body]
pub(crate) fn grid_set(g: &mut Grid, x: usize, y: usize, c: usize, v: u128)
    requires
        grid_extents(*old(g)).len() == 3,
        x < grid_extents(*old(g))[0],
        y < grid_extents(*old(g))[1],
        c < grid_extents(*old(g))[2],
    ensures
        grid_extents(*final(g)) == grid_extents(*old(g)),
        grid_cells(*final(g)) == grid_cells(*old(g)).update(
            (x * grid_extents(*old(g))[1] + y) * grid_extents(*old(g))[2] + c,
            v,
        ),
{
    g.cells[[x, y, c]] = v;
}

} // verus!
