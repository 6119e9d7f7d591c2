//! Voxels and boxes of voxels, as mathematical sets.

use vstd::prelude::*;

verus! {

/// A voxel, or the extents of a box: (l, w, h).
pub type Cell = (int, int, int);

/// Whether voxel `c` lies in the box at `origin` with extents `dims`.
pub open spec fn in_box(c: Cell, origin: Cell, dims: Cell) -> bool {
    &&& origin.0 <= c.0 < origin.0 + dims.0
    &&& origin.1 <= c.1 < origin.1 + dims.1
    &&& origin.2 <= c.2 < origin.2 + dims.2
}

/// The voxels of the box at `origin` with extents `dims`.
pub open spec fn box_set(origin: Cell, dims: Cell) -> Set<Cell> {
    Set::new(|c: Cell| in_box(c, origin, dims))
}

/// The number of voxels in a box with extents `dims`.
pub open spec fn box_volume(dims: Cell) -> int {
    dims.0 * dims.1 * dims.2
}

/// Whether every extent is at least one.
pub open spec fn positive(dims: Cell) -> bool {
    dims.0 >= 1 && dims.1 >= 1 && dims.2 >= 1
}

/// Whether the whole box lies inside `cells`.
pub open spec fn box_within(cells: Set<Cell>, origin: Cell, dims: Cell) -> bool {
    forall|c: Cell| in_box(c, origin, dims) ==> cells.contains(c)
}

/// The order in which voxels are scanned: by height, then by l, then by w.
pub open spec fn scans_before(a: Cell, b: Cell) -> bool {
    a.2 < b.2 || (a.2 == b.2 && (a.0 < b.0 || (a.0 == b.0 && a.1 < b.1)))
}

/// The number of pieces of length `step` that it takes to span `extent`, the last piece
/// being as long as what is left.
pub open spec fn steps(extent: int, step: int) -> int {
    if extent <= 0 {
        0
    } else {
        (extent - 1) / step + 1
    }
}

/// A piece before the last begins inside the extent.
pub proof fn lemma_step_inside(extent: int, step: int, k: int)
    requires
        1 <= step,
        0 <= k < steps(extent, step),
    ensures
        0 <= k * step < extent,
{
    let q = (extent - 1) / step;
    vstd::arithmetic::div_mod::lemma_fundamental_div_mod(extent - 1, step);
    assert(k * step <= q * step) by (nonlinear_arith)
        requires
            0 <= k <= q,
            1 <= step,
    ;
    assert(q * step == step * q) by (nonlinear_arith);
    assert(0 <= k * step) by (nonlinear_arith)
        requires
            0 <= k,
            1 <= step,
    ;
}

/// A piece that begins inside the extent is one of the pieces that span it.
pub proof fn lemma_step_counted(extent: int, step: int, k: int)
    requires
        1 <= step,
        0 <= k,
        k * step < extent,
    ensures
        k < steps(extent, step),
{
    let q = (extent - 1) / step;
    vstd::arithmetic::div_mod::lemma_fundamental_div_mod(extent - 1, step);
    assert(k <= q) by (nonlinear_arith)
        requires
            k * step < extent,
            extent - 1 == step * q + (extent - 1) % step,
            0 <= (extent - 1) % step < step,
            1 <= step,
            0 <= k,
    ;
}

/// A box holds as many voxels as the product of its extents.
pub proof fn lemma_box_len(origin: Cell, dims: Cell)
    requires
        0 <= dims.0,
        0 <= dims.1,
        0 <= dims.2,
    ensures
        box_set(origin, dims).finite(),
        box_set(origin, dims).len() == box_volume(dims),
    decreases dims.2, dims.1, dims.0,
{
    let whole = box_set(origin, dims);
    if dims.0 == 0 || dims.1 == 0 || dims.2 == 0 {
        assert(whole =~= Set::<Cell>::empty());
        assert(dims.0 * dims.1 * dims.2 == 0) by (nonlinear_arith)
            requires
                dims.0 == 0 || dims.1 == 0 || dims.2 == 0,
        ;
    } else if dims.2 > 1 {
        let lower_dims = (dims.0, dims.1, dims.2 - 1);
        let top_origin = (origin.0, origin.1, origin.2 + dims.2 - 1);
        let top_dims = (dims.0, dims.1, 1int);
        let lower = box_set(origin, lower_dims);
        let top = box_set(top_origin, top_dims);
        lemma_box_len(origin, lower_dims);
        lemma_box_len(top_origin, top_dims);
        assert(whole =~= lower + top);
        assert(lower.disjoint(top));
        vstd::set_lib::lemma_set_disjoint_lens(lower, top);
        assert(dims.0 * dims.1 * (dims.2 - 1) + dims.0 * dims.1 * 1 == dims.0 * dims.1 * dims.2)
            by (nonlinear_arith);
    } else if dims.1 > 1 {
        let lower_dims = (dims.0, dims.1 - 1, 1int);
        let top_origin = (origin.0, origin.1 + dims.1 - 1, origin.2);
        let top_dims = (dims.0, 1int, 1int);
        let lower = box_set(origin, lower_dims);
        let top = box_set(top_origin, top_dims);
        lemma_box_len(origin, lower_dims);
        lemma_box_len(top_origin, top_dims);
        assert(whole =~= lower + top);
        assert(lower.disjoint(top));
        vstd::set_lib::lemma_set_disjoint_lens(lower, top);
        assert(dims.0 * (dims.1 - 1) * 1 + dims.0 * 1 * 1 == dims.0 * dims.1 * dims.2)
            by (nonlinear_arith)
            requires
                dims.2 == 1,
        ;
    } else if dims.0 > 1 {
        let lower_dims = (dims.0 - 1, 1int, 1int);
        let top_origin = (origin.0 + dims.0 - 1, origin.1, origin.2);
        let top_dims = (1int, 1int, 1int);
        let lower = box_set(origin, lower_dims);
        let top = box_set(top_origin, top_dims);
        lemma_box_len(origin, lower_dims);
        lemma_box_len(top_origin, top_dims);
        assert(whole =~= lower + top);
        assert(lower.disjoint(top));
        vstd::set_lib::lemma_set_disjoint_lens(lower, top);
        assert((dims.0 - 1) * 1 * 1 + 1 * 1 * 1 == dims.0 * dims.1 * dims.2) by (nonlinear_arith)
            requires
                dims.1 == 1,
                dims.2 == 1,
        ;
    } else {
        assert(whole =~= Set::<Cell>::empty().insert(origin));
        assert(dims.0 * dims.1 * dims.2 == 1) by (nonlinear_arith)
            requires
                dims.0 == 1,
                dims.1 == 1,
                dims.2 == 1,
        ;
    }
}

} // verus!
