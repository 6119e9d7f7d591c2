//! The voxels of a chunk that are still to be filled, layer by layer.

use vstd::prelude::*;
use std::collections::BTreeSet;
use crate::geometry::{Cell, in_box, box_within};

verus! {

/// Whether column (l, w) of one layer is still to be filled.
pub open spec fn layer_has(layer: Seq<BTreeSet<u8>>, l: int, w: int) -> bool {
    &&& 0 <= l < layer.len()
    &&& l < 255
    &&& 0 <= w < 255
    &&& layer[l]@.contains(w as u8)
}

/// Whether voxel `c` is still to be filled.
pub open spec fn grid_has(grid: Seq<Vec<BTreeSet<u8>>>, c: Cell) -> bool {
    &&& 0 <= c.2 < grid.len()
    &&& c.2 < 255
    &&& layer_has(grid[c.2]@, c.0, c.1)
}

/// The voxels that are still to be filled.
pub open spec fn grid_cells(grid: Seq<Vec<BTreeSet<u8>>>) -> Set<Cell> {
    Set::new(|c: Cell| grid_has(grid, c))
}

/// Whether two grids have the same number of layers and of columns in each layer.
pub open spec fn same_shape(a: Seq<Vec<BTreeSet<u8>>>, b: Seq<Vec<BTreeSet<u8>>>) -> bool {
    &&& a.len() == b.len()
    &&& forall|h: int| 0 <= h < a.len() ==> (#[trigger] a[h]).len() == b[h].len()
}

/// Whether the `length` by `width` rectangle at (l, w) lies wholly in what is still to
/// be filled of one layer.
pub fn fits_layer(l: u8, w: u8, length: u8, width: u8, layer: &Vec<BTreeSet<u8>>) -> (r: bool)
    requires
        length >= 1,
        width >= 1,
        l + length <= 255,
        w + width <= 255,
    ensures
        r == (forall|tl: int, tw: int|
            l <= tl < l + length && w <= tw < w + width ==> #[trigger] layer_has(layer@, tl, tw)),
{
    let max_l: u8 = l + length;
    let max_w: u8 = w + width;

    // The rectangle extends beyond the layer's length
    if max_l as usize > layer.len() {
        assert(!layer_has(layer@, max_l - 1, w as int));
        return false;
    }
    let mut test_l: u8 = l;
    while test_l < max_l
        invariant
            l <= test_l <= max_l,
            max_l == l + length,
            max_w == w + width,
            max_l <= layer.len(),
            max_l <= 255,
            max_w <= 255,
            forall|tl: int, tw: int|
                l <= tl < test_l && w <= tw < max_w ==> #[trigger] layer_has(layer@, tl, tw),
        decreases max_l - test_l,
    {
        let mut test_w: u8 = w;
        while test_w < max_w
            invariant
                w <= test_w <= max_w,
                l <= test_l < max_l,
                max_l == l + length,
                max_w == w + width,
                max_l <= layer.len(),
                max_l <= 255,
                max_w <= 255,
                forall|tw: int| w <= tw < test_w ==> layer_has(layer@, test_l as int, tw),
            decreases max_w - test_w,
        {
            if !layer[test_l as usize].contains(&test_w) {
                assert(!layer_has(layer@, test_l as int, test_w as int));
                return false;
            }
            test_w += 1;
        }
        test_l += 1;
    }
    true
}

/// Whether the box at (l, w, h) with the given extents lies wholly in what is still to
/// be filled.
pub fn fits(
    l: u8,
    w: u8,
    h: u8,
    length: u8,
    width: u8,
    height: u8,
    grid: &Vec<Vec<BTreeSet<u8>>>,
) -> (r: bool)
    requires
        length >= 1,
        width >= 1,
        height >= 1,
    ensures
        r == box_within(
            grid_cells(grid@),
            (l as int, w as int, h as int),
            (length as int, width as int, height as int),
        ),
{
    let ghost origin = (l as int, w as int, h as int);
    let ghost dims = (length as int, width as int, height as int);
    if u8::MAX - height < h || u8::MAX - length < l || u8::MAX - width < w {
        proof {
            let c = (l + length - 1, w + width - 1, h + height - 1);
            assert(in_box(c, origin, dims));
            assert(!grid_cells(grid@).contains(c));
        }
        return false;
    }
    let max_h: u8 = h + height;

    // The box extends beyond the grid's height
    if max_h as usize > grid.len() {
        proof {
            let c = (l as int, w as int, h + height - 1);
            assert(in_box(c, origin, dims));
            assert(!grid_cells(grid@).contains(c));
        }
        return false;
    }
    let mut test_h: u8 = h;
    while test_h < max_h
        invariant
            h <= test_h <= max_h,
            max_h == h + height,
            max_h <= grid.len(),
            max_h <= 255,
            l + length <= 255,
            w + width <= 255,
            origin == (l as int, w as int, h as int),
            dims == (length as int, width as int, height as int),
            length >= 1,
            width >= 1,
            height >= 1,
            forall|c: Cell|
                in_box(c, origin, dims) && c.2 < test_h ==> #[trigger] grid_has(grid@, c),
        decreases max_h - test_h,
    {
        if !fits_layer(l, w, length, width, &grid[test_h as usize]) {
            proof {
                let (tl, tw) = choose|tl: int, tw: int|
                    l <= tl < l + length && w <= tw < w + width && !layer_has(
                        grid[test_h as int]@,
                        tl,
                        tw,
                    );
                let c = (tl, tw, test_h as int);
                assert(in_box(c, origin, dims));
                assert(!grid_cells(grid@).contains(c));
            }
            return false;
        }
        test_h += 1;
    }
    proof {
        assert forall|c: Cell| in_box(c, origin, dims) implies grid_cells(grid@).contains(c) by {
            assert(grid_has(grid@, c));
        }
    }
    true
}

/// Takes the `length` by `width` rectangle at (l, w) out of what is still to be filled
/// of one layer.
pub fn remove_brick_layer(l: u8, w: u8, length: u8, width: u8, layer: &mut Vec<BTreeSet<u8>>)
    requires
        l + length <= old(layer).len(),
        l + length <= 255,
        w + width <= 255,
    ensures
        final(layer).len() == old(layer).len(),
        forall|tl: int, tw: int|
            #[trigger] layer_has(final(layer)@, tl, tw) <==> layer_has(old(layer)@, tl, tw) && !(l
                <= tl < l + length && w <= tw < w + width),
{
    let max_l: u8 = l + length;
    let max_w: u8 = w + width;
    let mut cur_l: u8 = l;
    while cur_l < max_l
        invariant
            l <= cur_l <= max_l,
            max_l == l + length,
            max_w == w + width,
            max_l <= 255,
            max_w <= 255,
            layer.len() == old(layer).len(),
            max_l <= layer.len(),
            forall|tl: int, tw: int|
                #[trigger] layer_has(layer@, tl, tw) <==> layer_has(old(layer)@, tl, tw) && !(l
                    <= tl < cur_l && w <= tw < max_w),
        decreases max_l - cur_l,
    {
        let mut cur_w: u8 = w;
        while cur_w < max_w
            invariant
                w <= cur_w <= max_w,
                l <= cur_l < max_l,
                max_l <= 255,
                max_w <= 255,
                layer.len() == old(layer).len(),
                max_l <= layer.len(),
                forall|tl: int, tw: int|
                    #[trigger] layer_has(layer@, tl, tw) <==> layer_has(old(layer)@, tl, tw) && !(l
                        <= tl < cur_l && w <= tw < max_w) && !(tl == cur_l && w <= tw < cur_w),
            decreases max_w - cur_w,
        {
            let ghost before = layer@;
            layer[cur_l as usize].remove(&cur_w);
            proof {
                assert(layer@[cur_l as int]@ == before[cur_l as int]@.remove(cur_w));
                assert forall|tl: int, tw: int|
                    #[trigger] layer_has(layer@, tl, tw) <==> layer_has(before, tl, tw) && !(tl
                        == cur_l && tw == cur_w) by {
                    if 0 <= tl < layer.len() && tl != cur_l {
                        assert(layer@[tl] == before[tl]);
                    }
                }
            }
            cur_w += 1;
        }
        cur_l += 1;
    }
}

/// Takes the box at (l, w, h) with the given extents out of what is still to be filled.
pub fn remove_brick(
    l: u8,
    w: u8,
    h: u8,
    length: u8,
    width: u8,
    height: u8,
    grid: &mut Vec<Vec<BTreeSet<u8>>>,
)
    requires
        length >= 1,
        width >= 1,
        height >= 1,
        box_within(
            grid_cells(old(grid)@),
            (l as int, w as int, h as int),
            (length as int, width as int, height as int),
        ),
    ensures
        same_shape(final(grid)@, old(grid)@),
        forall|c: Cell|
            #[trigger] grid_has(final(grid)@, c) <==> grid_has(old(grid)@, c) && !in_box(
                c,
                (l as int, w as int, h as int),
                (length as int, width as int, height as int),
            ),
{
    let ghost origin = (l as int, w as int, h as int);
    let ghost dims = (length as int, width as int, height as int);
    proof {
        let c = (l + length - 1, w + width - 1, h + height - 1);
        assert(in_box(c, origin, dims));
        assert(grid_cells(grid@).contains(c));
        assert(grid_has(grid@, c));
    }
    let max_h: u8 = h + height;
    let mut cur_h: u8 = h;
    while cur_h < max_h
        invariant
            h <= cur_h <= max_h,
            max_h == h + height,
            max_h <= grid.len(),
            max_h <= 255,
            length >= 1,
            width >= 1,
            height >= 1,
            l + length <= 255,
            w + width <= 255,
            origin == (l as int, w as int, h as int),
            dims == (length as int, width as int, height as int),
            same_shape(grid@, old(grid)@),
            box_within(grid_cells(old(grid)@), origin, dims),
            forall|c: Cell|
                #[trigger] grid_has(grid@, c) <==> grid_has(old(grid)@, c) && !(in_box(
                    c,
                    origin,
                    dims,
                ) && c.2 < cur_h),
        decreases max_h - cur_h,
    {
        let ghost before = grid@;
        proof {
            let c = (l + length - 1, w as int, cur_h as int);
            assert(in_box(c, origin, dims));
            assert(grid_cells(old(grid)@).contains(c));
            assert(grid_has(old(grid)@, c));
        }
        remove_brick_layer(l, w, length, width, &mut grid[cur_h as usize]);
        proof {
            assert forall|c: Cell|
                #[trigger] grid_has(grid@, c) <==> grid_has(old(grid)@, c) && !(in_box(
                    c,
                    origin,
                    dims,
                ) && c.2 < cur_h + 1) by {
                assert(grid_has(before, c) <==> grid_has(old(grid)@, c) && !(in_box(
                    c,
                    origin,
                    dims,
                ) && c.2 < cur_h));
                if 0 <= c.2 < grid.len() && c.2 != cur_h {
                    assert(grid@[c.2] == before[c.2]);
                    assert(grid_has(grid@, c) == grid_has(before, c));
                }
            }
            assert(same_shape(grid@, old(grid)@)) by {
                assert forall|hh: int| 0 <= hh < grid@.len() implies (#[trigger] grid@[hh]).len()
                    == old(grid)@[hh].len() by {
                    if hh != cur_h {
                        assert(grid@[hh] == before[hh]);
                    }
                    assert(before[hh].len() == old(grid)@[hh].len());
                }
            }
        }
        cur_h += 1;
    }
}

} // verus!
