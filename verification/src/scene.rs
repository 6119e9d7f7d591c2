//! Scenes: what an image, a palette and the two callbacks were seen to return for the
//! columns and voxels of a mosaic.

use vstd::prelude::*;
use vstd::std_specs::cmp::PartialEqSpec;
use crate::brick::{Brick, NonUnitBrick, UnitBrick};
use crate::color::Color;
use crate::geometry::Cell;
use crate::pixels::{Image, Palette, quantizes};

verus! {

/// The color and the height of each column, and the brick of each voxel.
pub struct Scene<U, B, C> {
    pub length: int,
    pub width: int,
    pub color_at: spec_fn(int, int) -> C,
    pub height_at: spec_fn(int, int) -> int,
    pub brick_at: spec_fn(Cell) -> Brick<U, B>,
}

/// Whether column (l, w) lies in a tile that comes before tile (i, j), the tiles taken
/// row after row along l.
pub open spec fn tile_done(l: int, w: int, i: int, j: int) -> bool {
    l / 255 < i || (l / 255 == i && w / 255 < j)
}

/// Whether voxel `v` lies in a tile before tile (i, j), or in that tile below `h`.
pub open spec fn voxel_done(v: Cell, i: int, j: int, h: int) -> bool {
    tile_done(v.0, v.1, i, j) || (v.0 / 255 == i && v.1 / 255 == j && v.2 < h)
}

impl<U: UnitBrick, B: NonUnitBrick<U>, C: Color> Scene<U, B, C> {
    /// Whether (l, w) is a column of the image.
    pub open spec fn in_image(&self, l: int, w: int) -> bool {
        0 <= l < self.length && 0 <= w < self.width
    }

    /// Whether the scene holds voxel `v`: it lies in a column of the image, below the
    /// column's height.
    pub open spec fn has(&self, v: Cell) -> bool {
        self.in_image(v.0, v.1) && 0 <= v.2 < (self.height_at)(v.0, v.1)
    }

    /// Whether the color and the height of column (l, w) are what the palette makes of
    /// the image's pixel and what the height function may return for it.
    pub open spec fn column_seen<I: Image, P: Palette<C>, HF: FnMut(u32, u32, C) -> u32>(
        &self,
        image: &I,
        palette: &P,
        height_fn: HF,
        l: int,
        w: int,
    ) -> bool {
        &&& quantizes(palette, image.spec_pixel(l as u32, w as u32), (self.color_at)(l, w))
        &&& 0 <= (self.height_at)(l, w) <= u32::MAX
        &&& call_ensures(
            height_fn,
            (l as u32, w as u32, (self.color_at)(l, w)),
            (self.height_at)(l, w) as u32,
        )
    }

    /// Whether the brick of voxel `v` is 1x1x1 and one that the brick function may return
    /// for the voxel and the color of its column.
    pub open spec fn voxel_seen<BF: FnMut(u32, u32, u32, C) -> Brick<U, B>>(
        &self,
        brick_fn: BF,
        v: Cell,
    ) -> bool {
        &&& (self.brick_at)(v).is_unit_size()
        &&& call_ensures(
            brick_fn,
            (v.0 as u32, v.1 as u32, v.2 as u32, (self.color_at)(v.0, v.1)),
            (self.brick_at)(v),
        )
    }

    /// Whether the colors and heights of the scene are what was seen in the tiles before
    /// tile (i, j).
    pub open spec fn columns_seen_upto<I: Image, P: Palette<C>, HF: FnMut(u32, u32, C) -> u32>(
        &self,
        image: &I,
        palette: &P,
        height_fn: HF,
        i: int,
        j: int,
    ) -> bool {
        &&& self.length == image.spec_length()
        &&& self.width == image.spec_width()
        &&& forall|l: int, w: int|
            self.in_image(l, w) && #[trigger] tile_done(l, w, i, j) ==> self.column_seen(
                image,
                palette,
                height_fn,
                l,
                w,
            )
    }

    /// Whether the bricks of the scene are what was seen in the tiles before tile (i, j)
    /// and, in that tile, below height `h`.
    pub open spec fn voxels_seen_upto<BF: FnMut(u32, u32, u32, C) -> Brick<U, B>>(
        &self,
        brick_fn: BF,
        i: int,
        j: int,
        h: int,
    ) -> bool {
        forall|v: Cell|
            self.has(v) && #[trigger] voxel_done(v, i, j, h) ==> self.voxel_seen(brick_fn, v)
    }

    /// Whether the two scenes have the same extents, colors and heights.
    pub open spec fn same_columns(&self, other: Self) -> bool {
        &&& self.length == other.length
        &&& self.width == other.width
        &&& self.color_at == other.color_at
        &&& self.height_at == other.height_at
    }

    /// Whether the brick function may return `brick` for voxel `v` and the color of its
    /// column.
    pub open spec fn asked<BF: FnMut(u32, u32, u32, C) -> Brick<U, B>>(
        &self,
        brick_fn: BF,
        v: Cell,
        brick: Brick<U, B>,
    ) -> bool {
        call_ensures(
            brick_fn,
            (v.0 as u32, v.1 as u32, v.2 as u32, (self.color_at)(v.0, v.1)),
            brick,
        )
    }

    /// Whether `brick` was refused at voxel `v`: the scene is as long and as wide as the
    /// image; the color and the height of the voxel's column are what was seen of the
    /// image, the palette and the height function; the voxel lies below that height; and
    /// `brick`, which is not 1x1x1, is one that the brick function may return for it.
    pub open spec fn refused<
        I: Image,
        P: Palette<C>,
        HF: FnMut(u32, u32, C) -> u32,
        BF: FnMut(u32, u32, u32, C) -> Brick<U, B>,
    >(
        &self,
        image: &I,
        palette: &P,
        height_fn: HF,
        brick_fn: BF,
        v: Cell,
        brick: Brick<U, B>,
    ) -> bool {
        &&& self.length == image.spec_length()
        &&& self.width == image.spec_width()
        &&& self.has(v)
        &&& self.column_seen(image, palette, height_fn, v.0, v.1)
        &&& !brick.is_unit_size()
        &&& self.asked(brick_fn, v, brick)
    }

    /// Whether the scene is what was seen of the image, the palette and the callbacks:
    /// the color of each column is what the palette makes of the image's pixel, its
    /// height is one that the height function may return for the column and its color,
    /// and the brick of each voxel below that height is 1x1x1 and one that the brick
    /// function may return for the voxel and the color of its column.
    pub open spec fn observes<
        I: Image,
        P: Palette<C>,
        HF: FnMut(u32, u32, C) -> u32,
        BF: FnMut(u32, u32, u32, C) -> Brick<U, B>,
    >(&self, image: &I, palette: &P, height_fn: HF, brick_fn: BF) -> bool {
        &&& self.length == image.spec_length()
        &&& self.width == image.spec_width()
        &&& forall|l: int, w: int| #[trigger]
            self.in_image(l, w) ==> self.column_seen(image, palette, height_fn, l, w)
        &&& forall|v: Cell| #[trigger] self.has(v) ==> self.voxel_seen(brick_fn, v)
    }

    /// Whether voxel `v` has the given unit brick and color: the very same, or equal as
    /// `==` compares them where `==` follows its specification.
    pub open spec fn agrees(&self, v: Cell, unit_brick: U, color: C) -> bool {
        ((self.brick_at)(v).spec_unit_brick() == unit_brick && (self.color_at)(v.0, v.1) == color)
            || (U::obeys_eq_spec() && C::obeys_eq_spec() ==> (self.brick_at)(
            v,
        ).spec_unit_brick().eq_spec(&unit_brick) && (self.color_at)(v.0, v.1).eq_spec(&color))
    }
}

} // verus!
