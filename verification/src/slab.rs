//! A slab: the part of a mosaic inside one section and one range of heights, at most
//! 255 voxels a side, as plain tables of heights, colors and unit bricks.

use vstd::prelude::*;
use crate::brick::{Brick, NonUnitBrick, UnitBrick};
use crate::error::MosaicError;
use crate::pixels::Pixels;
use crate::color::Color;
use crate::geometry::Cell;

verus! {

/// The place of column (l, w) in a table stored row by row.
pub open spec fn column_index(l: int, w: int, length: int) -> int {
    w * length + l
}

/// The place of voxel (l, w, h) in a table stored layer by layer, each layer row by row.
pub open spec fn voxel_index(c: Cell, length: int, width: int) -> int {
    c.2 * (length * width) + column_index(c.0, c.1, length)
}

/// Columns inside a `length` by `width` rectangle have places below `length * width`,
/// and two of them have the same place only if they are the same column.
pub proof fn lemma_column_index(l: int, w: int, length: int, width: int)
    requires
        0 <= l < length,
        0 <= w < width,
    ensures
        0 <= column_index(l, w, length) < length * width,
        column_index(l, w, length) / length == w,
        column_index(l, w, length) % length == l,
{
    assert(0 <= w * length) by (nonlinear_arith)
        requires
            0 <= w,
            0 < length,
    ;
    assert(w * length + l < length * width) by (nonlinear_arith)
        requires
            0 <= l < length,
            0 <= w < width,
    ;
    vstd::arithmetic::div_mod::lemma_fundamental_div_mod_converse(w * length + l, length, w, l);
}

/// Voxels inside a box have places below the box's volume, and two of them have the
/// same place only if they are the same voxel.
pub proof fn lemma_voxel_index(c: Cell, length: int, width: int, height: int)
    requires
        0 <= c.0 < length,
        0 <= c.1 < width,
        0 <= c.2 < height,
    ensures
        0 <= voxel_index(c, length, width) < length * width * height,
        voxel_index(c, length, width) / (length * width) == c.2,
        voxel_index(c, length, width) % (length * width) == column_index(c.0, c.1, length),
{
    lemma_column_index(c.0, c.1, length, width);
    let area = length * width;
    let col = column_index(c.0, c.1, length);
    assert(0 < area) by (nonlinear_arith)
        requires
            0 < length,
            0 < width,
            area == length * width,
    ;
    assert(0 <= c.2 * area) by (nonlinear_arith)
        requires
            0 <= c.2,
            0 < area,
    ;
    assert(c.2 * area + col < area * height) by (nonlinear_arith)
        requires
            0 <= col < area,
            0 <= c.2 < height,
    ;
    assert(area * height == length * width * height);
    vstd::arithmetic::div_mod::lemma_fundamental_div_mod_converse(c.2 * area + col, area, c.2, col);
}

/// Two voxels inside a box that have the same place are the same voxel.
pub proof fn lemma_voxel_index_injective(a: Cell, b: Cell, length: int, width: int, height: int)
    requires
        0 <= a.0 < length,
        0 <= a.1 < width,
        0 <= a.2 < height,
        0 <= b.0 < length,
        0 <= b.1 < width,
        0 <= b.2 < height,
        voxel_index(a, length, width) == voxel_index(b, length, width),
    ensures
        a == b,
{
    lemma_voxel_index(a, length, width, height);
    lemma_voxel_index(b, length, width, height);
    lemma_column_index(a.0, a.1, length, width);
    lemma_column_index(b.0, b.1, length, width);
}

/// The tables of one slab. Column (l, w) holds the voxels below `heights[..]`; each of
/// them has a unit brick, and the column a color.
pub struct Slab<U, C> {
    pub length: u8,
    pub width: u8,
    pub height: u8,
    pub heights: Vec<u8>,
    pub colors: Vec<C>,
    pub bricks: Vec<Option<U>>,
}

impl<U: UnitBrick, C: Color> Slab<U, C> {
    /// The extents of the slab.
    pub open spec fn dims(&self) -> Cell {
        (self.length as int, self.width as int, self.height as int)
    }

    /// Whether (l, w) is a column of the slab.
    pub open spec fn in_area(&self, l: int, w: int) -> bool {
        0 <= l < self.dims().0 && 0 <= w < self.dims().1
    }

    /// The number of voxels in column (l, w).
    pub closed spec fn height_at(&self, l: int, w: int) -> int {
        self.heights[column_index(l, w, self.length as int)] as int
    }

    /// The color of column (l, w).
    pub closed spec fn color_at(&self, l: int, w: int) -> C {
        self.colors[column_index(l, w, self.length as int)]
    }

    /// The unit brick of voxel `c`.
    pub closed spec fn brick_at(&self, c: Cell) -> U {
        self.bricks[voxel_index(c, self.length as int, self.width as int)].unwrap()
    }

    /// Whether the slab holds voxel `c`.
    pub open spec fn has(&self, c: Cell) -> bool {
        self.in_area(c.0, c.1) && 0 <= c.2 < self.height_at(c.0, c.1)
    }

    /// The tables have one entry for each column and each voxel of the bounding box, no
    /// column is higher than the slab, and every voxel has a unit brick.
    pub closed spec fn wf(&self) -> bool {
        &&& self.heights.len() == self.length * self.width
        &&& self.colors.len() == self.length * self.width
        &&& self.bricks.len() == self.length * self.width * self.height
        &&& forall|l: int, w: int|
            self.in_area(l, w) ==> 0 <= #[trigger] self.height_at(l, w) <= self.height
        &&& forall|c: Cell|
            #[trigger] self.has(c) ==> self.bricks[voxel_index(
                c,
                self.length as int,
                self.width as int,
            )] is Some
    }

    /// The number of voxels in the slab's bounding box.
    pub open spec fn volume(&self) -> int {
        self.dims().0 * self.dims().1 * self.dims().2
    }

    /// Voxels of the slab have places below its volume.
    pub proof fn lemma_has_index(&self, c: Cell)
        requires
            self.wf(),
            self.has(c),
        ensures
            0 <= c.0 < self.dims().0,
            0 <= c.1 < self.dims().1,
            0 <= c.2 < self.dims().2,
            0 <= voxel_index(c, self.dims().0, self.dims().1) < self.volume(),
    {
        assert(self.in_area(c.0, c.1));
        assert(self.height_at(c.0, c.1) <= self.height);
        lemma_voxel_index(c, self.length as int, self.width as int, self.height as int);
    }

    /// The slab's extent along l.
    pub fn length(&self) -> (r: u8)
        ensures
            r == self.dims().0,
    {
        self.length
    }

    /// The slab's extent along w.
    pub fn width(&self) -> (r: u8)
        ensures
            r == self.dims().1,
    {
        self.width
    }

    /// The slab's extent along h.
    pub fn height(&self) -> (r: u8)
        ensures
            r == self.dims().2,
    {
        self.height
    }

    /// The number of voxels in the slab's bounding box.
    pub fn voxel_count(&self) -> (r: usize)
        requires
            self.wf(),
        ensures
            r == self.volume(),
    {
        self.bricks.len()
    }

    /// The place of voxel (l, w, h) in the slab's tables.
    pub fn visited_index(&self, l: u8, w: u8, h: u8) -> (r: usize)
        requires
            self.wf(),
            l < self.dims().0,
            w < self.dims().1,
            h < self.dims().2,
        ensures
            r == voxel_index((l as int, w as int, h as int), self.dims().0, self.dims().1),
            r < self.volume(),
    {
        proof {
            lemma_voxel_index(
                (l as int, w as int, h as int),
                self.length as int,
                self.width as int,
                self.height as int,
            );
            lemma_column_index(l as int, w as int, self.length as int, self.width as int);
            assert(self.length * self.width <= 255 * 255) by (nonlinear_arith)
                requires
                    self.length <= 255,
                    self.width <= 255,
            ;
            assert(h * (self.length * self.width) <= 255 * (255 * 255)) by (nonlinear_arith)
                requires
                    h <= 255,
                    0 <= self.length * self.width <= 255 * 255,
            ;
            assert(h as usize * self.length as usize * self.width as usize == h * (self.length
                * self.width)) by (nonlinear_arith);
            assert(h as usize * self.length as usize <= 255 * 255) by (nonlinear_arith)
                requires
                    h <= 255,
                    self.length <= 255,
            ;
            assert(w as usize * self.length as usize <= 255 * 255) by (nonlinear_arith)
                requires
                    w <= 255,
                    self.length <= 255,
            ;
        }
        h as usize * self.length as usize * self.width as usize + w as usize * self.length as usize
            + l as usize
    }

    /// The number of voxels in column (l, w).
    pub fn column_height(&self, l: u8, w: u8) -> (r: u8)
        requires
            self.wf(),
            self.in_area(l as int, w as int),
        ensures
            r == self.height_at(l as int, w as int),
            r <= self.dims().2,
    {
        proof {
            lemma_column_index(l as int, w as int, self.length as int, self.width as int);
            assert(w as usize * self.length as usize <= 255 * 255) by (nonlinear_arith)
                requires
                    w <= 255,
                    self.length <= 255,
            ;
            assert(self.height_at(l as int, w as int) <= self.height);
        }
        self.heights[w as usize * self.length as usize + l as usize]
    }

    /// The color of column (l, w).
    pub fn column_color(&self, l: u8, w: u8) -> (r: C)
        requires
            self.wf(),
            self.in_area(l as int, w as int),
        ensures
            r == self.color_at(l as int, w as int),
    {
        proof {
            lemma_column_index(l as int, w as int, self.length as int, self.width as int);
            assert(w as usize * self.length as usize <= 255 * 255) by (nonlinear_arith)
                requires
                    w <= 255,
                    self.length <= 255,
            ;
        }
        self.colors[w as usize * self.length as usize + l as usize]
    }

    /// The unit brick of voxel (l, w, h).
    pub fn voxel_brick(&self, l: u8, w: u8, h: u8) -> (r: U)
        requires
            self.wf(),
            self.has((l as int, w as int, h as int)),
        ensures
            r == self.brick_at((l as int, w as int, h as int)),
    {
        proof {
            self.lemma_has_index((l as int, w as int, h as int));
        }
        let index = self.visited_index(l, w, h);
        self.bricks[index].unwrap()
    }
}

/// The number of voxels of a column that lie in the slab that begins at height
/// `section_h`: what is left of the column above `section_h`, at most 255.
pub open spec fn slab_height_of(height: int, section_h: int) -> int {
    if height <= section_h {
        0
    } else if height - section_h < 255 {
        height - section_h
    } else {
        255
    }
}

impl<U: UnitBrick, C: Color> Slab<U, C> {
    /// Whether the brick was chosen for voxel `c` of the slab that begins at `origin`: the
    /// brick function may return it for the voxel and the color of its column.
    pub open spec fn chosen<B: NonUnitBrick<U>, BF: FnMut(u32, u32, u32, C) -> Brick<U, B>>(
        &self,
        brick_fn: BF,
        origin: Cell,
        c: Cell,
        brick: Brick<U, B>,
    ) -> bool {
        call_ensures(
            brick_fn,
            (
                (origin.0 + c.0) as u32,
                (origin.1 + c.1) as u32,
                (origin.2 + c.2) as u32,
                self.color_at(c.0, c.1),
            ),
            brick,
        )
    }

    /// Whether the brick function may return `brick` for voxel `c`, with the color
    /// `color`, of a slab that begins at `origin`.
    pub open spec fn asked<B: NonUnitBrick<U>, BF: FnMut(u32, u32, u32, C) -> Brick<U, B>>(
        brick_fn: BF,
        origin: Cell,
        color: C,
        c: Cell,
        brick: Brick<U, B>,
    ) -> bool {
        call_ensures(
            brick_fn,
            ((origin.0 + c.0) as u32, (origin.1 + c.1) as u32, (origin.2 + c.2) as u32, color),
            brick,
        )
    }

    /// Whether the tables of heights and colors of a slab hold, for each column, the
    /// number of its voxels in the slab and its color.
    pub open spec fn tables_match(
        column_heights: Seq<u8>,
        column_colors: Seq<C>,
        colors: &Pixels<C>,
        heights: &Pixels<u32>,
        section_h: int,
        length: int,
        width: int,
    ) -> bool {
        forall|tl: int, tw: int|
            0 <= tl < length && 0 <= tw < width ==> column_heights[#[trigger] column_index(
                tl,
                tw,
                length,
            )] == slab_height_of(heights.spec_value(tl, tw) as int, section_h)
                && column_colors[column_index(tl, tw, length)] == colors.spec_value(tl, tw)
    }

    /// Builds the tables of the slab of `length` by `width` by `height` voxels that begins
    /// at the voxel (section_l, section_w, section_h) of the mosaic. The brick function is
    /// asked once for each voxel of the slab, layer by layer from the bottom up, each
    /// layer row by row. The first brick that is not 1x1x1 ends the construction.
    pub fn sample<B: NonUnitBrick<U>, BF: FnMut(u32, u32, u32, C) -> Brick<U, B>>(
        brick_fn: &mut BF,
        colors: &Pixels<C>,
        heights: &Pixels<u32>,
        section_l: u32,
        section_w: u32,
        section_h: u32,
        length: u8,
        width: u8,
        height: u8,
    ) -> (r: Result<(Slab<U, C>, Ghost<spec_fn(Cell) -> Brick<U, B>>), MosaicError<U, B>>)
        requires
            1 <= length,
            1 <= width,
            1 <= height,
            colors.wf(),
            heights.wf(),
            colors.spec_length() == length,
            colors.spec_width() == width,
            heights.spec_length() == length,
            heights.spec_width() == width,
            section_l + length <= u32::MAX,
            section_w + width <= u32::MAX,
            section_h + height <= u32::MAX,
            forall|l: int, w: int|
                0 <= l < length && 0 <= w < width ==> slab_height_of(
                    #[trigger] heights.spec_value(l, w) as int,
                    section_h as int,
                ) <= height,
            forall|l: u32, w: u32, h: u32, color: C| call_requires(*old(brick_fn), (l, w, h, color)),
        ensures
            *final(brick_fn) == *old(brick_fn),
            match r {
                Ok((slab, sampled)) => {
                    &&& slab.wf()
                    &&& slab.dims() == (length as int, width as int, height as int)
                    &&& slab.volume() <= usize::MAX - 8
                    &&& forall|l: int, w: int|
                        0 <= l < length && 0 <= w < width ==> #[trigger] slab.height_at(l, w)
                            == slab_height_of(heights.spec_value(l, w) as int, section_h as int)
                    &&& forall|l: int, w: int|
                        0 <= l < length && 0 <= w < width ==> #[trigger] slab.color_at(l, w)
                            == colors.spec_value(l, w)
                    &&& forall|c: Cell| #[trigger]
                        slab.has(c) ==> {
                            &&& slab.chosen(
                                *old(brick_fn),
                                (section_l as int, section_w as int, section_h as int),
                                c,
                                sampled@(c),
                            )
                            &&& sampled@(c).is_unit_size()
                            &&& slab.brick_at(c) == sampled@(c).spec_unit_brick()
                        }
                },
                Err(MosaicError::NotUnitBrick(brick)) => {
                    &&& !brick.is_unit_size()
                    &&& exists|c: Cell|
                        {
                            &&& 0 <= c.0 < length
                            &&& 0 <= c.1 < width
                            &&& 0 <= c.2 < slab_height_of(
                                heights.spec_value(c.0, c.1) as int,
                                section_h as int,
                            )
                            &&& #[trigger] Self::asked(
                                *old(brick_fn),
                                (section_l as int, section_w as int, section_h as int),
                                colors.spec_value(c.0, c.1),
                                c,
                                brick,
                            )
                        }
                },
                Err(MosaicError::PointerTooSmall) => length * width * height > usize::MAX - 8,
            },
    {
        let ghost f0 = *brick_fn;
        let ghost origin = (section_l as int, section_w as int, section_h as int);
        let ghost area = length * width;
        proof {
            assert(length * width <= 255 * 255) by (nonlinear_arith)
                requires
                    length <= 255,
                    width <= 255,
            ;
            assert(length * width * height <= 255 * 255 * 255) by (nonlinear_arith)
                requires
                    0 <= length * width <= 255 * 255,
                    height <= 255,
            ;
            assert(1 <= length * width) by (nonlinear_arith)
                requires
                    1 <= length,
                    1 <= width,
            ;
        }
        let volume: u64 = length as u64 * width as u64 * height as u64;
        if volume > usize::MAX as u64 - 8 {
            return Err(MosaicError::PointerTooSmall);
        }
        let mut column_heights: Vec<u8> = Vec::new();
        let mut column_colors: Vec<C> = Vec::new();
        let mut w: u8 = 0;
        while w < width
            invariant
                w <= width,
                1 <= length,
                colors.wf(),
                heights.wf(),
                colors.spec_length() == length,
                colors.spec_width() == width,
                heights.spec_length() == length,
                heights.spec_width() == width,
                column_heights.len() == w * length,
                column_colors.len() == w * length,
                forall|l: int, w: int|
                    0 <= l < length && 0 <= w < width ==> slab_height_of(
                        #[trigger] heights.spec_value(l, w) as int,
                        section_h as int,
                    ) <= height,
                forall|tl: int, tw: int|
                    0 <= tl < length && 0 <= tw < w ==> column_heights@[#[trigger] column_index(
                        tl,
                        tw,
                        length as int,
                    )] == slab_height_of(heights.spec_value(tl, tw) as int, section_h as int)
                        && column_colors@[column_index(tl, tw, length as int)] == colors.spec_value(
                        tl,
                        tw,
                    ),
            decreases width - w,
        {
            let mut l: u8 = 0;
            while l < length
                invariant
                    w < width,
                    l <= length,
                    colors.wf(),
                    heights.wf(),
                    colors.spec_length() == length,
                    colors.spec_width() == width,
                    heights.spec_length() == length,
                    heights.spec_width() == width,
                    column_heights.len() == w * length + l,
                    column_colors.len() == w * length + l,
                    forall|l: int, w: int|
                        0 <= l < length && 0 <= w < width ==> slab_height_of(
                            #[trigger] heights.spec_value(l, w) as int,
                            section_h as int,
                        ) <= height,
                    forall|tl: int, tw: int|
                        0 <= tl < length && (0 <= tw < w || (tw == w && tl < l))
                            ==> column_heights@[#[trigger] column_index(tl, tw, length as int)]
                            == slab_height_of(heights.spec_value(tl, tw) as int, section_h as int)
                            && column_colors@[column_index(tl, tw, length as int)]
                            == colors.spec_value(tl, tw),
                decreases length - l,
            {
                let column_height = heights.value(l as usize, w as usize);
                let in_slab: u8 = if column_height > section_h {
                    if column_height - section_h < 255 {
                        (column_height - section_h) as u8
                    } else {
                        255
                    }
                } else {
                    0
                };
                let ghost before_heights = column_heights@;
                let ghost before_colors = column_colors@;
                column_heights.push(in_slab);
                column_colors.push(colors.value(l as usize, w as usize));
                proof {
                    assert forall|tl: int, tw: int|
                        0 <= tl < length && (0 <= tw < w || (tw == w && tl < l + 1))
                            implies column_heights@[#[trigger] column_index(tl, tw, length as int)]
                        == slab_height_of(heights.spec_value(tl, tw) as int, section_h as int)
                        && column_colors@[column_index(tl, tw, length as int)]
                        == colors.spec_value(tl, tw) by {
                        let i = column_index(tl, tw, length as int);
                        if tw < w {
                            assert(i < w * length) by (nonlinear_arith)
                                requires
                                    i == tw * length + tl,
                                    0 <= tl < length,
                                    0 <= tw < w,
                            ;
                            assert(column_heights@[i] == before_heights[i]);
                            assert(column_colors@[i] == before_colors[i]);
                        } else if tl < l {
                            assert(column_heights@[i] == before_heights[i]);
                            assert(column_colors@[i] == before_colors[i]);
                        }
                    }
                }
                l += 1;
            }
            proof {
                assert((w + 1) * length == w * length + length) by (nonlinear_arith);
            }
            w += 1;
        }
        proof {
            assert(Self::tables_match(
                column_heights@,
                column_colors@,
                colors,
                heights,
                section_h as int,
                length as int,
                width as int,
            ));
        }
        let mut bricks: Vec<Option<U>> = Vec::new();
        let ghost mut sampled: spec_fn(Cell) -> Brick<U, B> = |c: Cell| arbitrary();
        let mut h: u8 = 0;
        proof {
            assert(width * length == length * width) by (nonlinear_arith);
            assert(0 * (length * width) == 0) by (nonlinear_arith);
        }
        while h < height
            invariant
                h <= height,
                1 <= length,
                1 <= width,
                *brick_fn == f0,
                f0 == *old(brick_fn),
                origin == (section_l as int, section_w as int, section_h as int),
                section_l + length <= u32::MAX,
                section_w + width <= u32::MAX,
                section_h + height <= u32::MAX,
                area == length * width,
                1 <= area <= 255 * 255,
                column_heights.len() == area,
                column_colors.len() == area,
                bricks.len() == h * area,
                forall|l: u32, w: u32, h: u32, color: C| call_requires(f0, (l, w, h, color)),
                Self::tables_match(
                    column_heights@,
                    column_colors@,
                    colors,
                    heights,
                    section_h as int,
                    length as int,
                    width as int,
                ),
                forall|c: Cell|
                    0 <= c.0 < length && 0 <= c.1 < width && 0 <= c.2 < h ==> Self::sampled_ok(
                        f0,
                        origin,
                        column_heights@,
                        column_colors@,
                        bricks@,
                        sampled,
                        length as int,
                        width as int,
                        #[trigger] voxel_index(c, length as int, width as int),
                        c,
                    ),
            decreases height - h,
        {
            let mut w: u8 = 0;
            proof {
                assert(0 * length == 0) by (nonlinear_arith);
            }
            while w < width
                invariant
                    h < height,
                    w <= width,
                    1 <= length,
                    1 <= width,
                    *brick_fn == f0,
                    f0 == *old(brick_fn),
                f0 == *old(brick_fn),
                    origin == (section_l as int, section_w as int, section_h as int),
                    section_l + length <= u32::MAX,
                    section_w + width <= u32::MAX,
                    section_h + height <= u32::MAX,
                    area == length * width,
                    1 <= area <= 255 * 255,
                    column_heights.len() == area,
                    column_colors.len() == area,
                    bricks.len() == h * area + w * length,
                    forall|l: u32, w: u32, h: u32, color: C| call_requires(f0, (l, w, h, color)),
                    Self::tables_match(
                        column_heights@,
                        column_colors@,
                        colors,
                        heights,
                        section_h as int,
                        length as int,
                        width as int,
                    ),
                Self::tables_match(
                    column_heights@,
                    column_colors@,
                    colors,
                    heights,
                    section_h as int,
                    length as int,
                    width as int,
                ),
                    forall|c: Cell|
                        0 <= c.0 < length && 0 <= c.1 < width && (0 <= c.2 < h || (c.2 == h && c.1
                            < w)) ==> Self::sampled_ok(
                            f0,
                            origin,
                            column_heights@,
                            column_colors@,
                            bricks@,
                            sampled,
                            length as int,
                            width as int,
                            #[trigger] voxel_index(c, length as int, width as int),
                            c,
                        ),
                decreases width - w,
            {
                let mut l: u8 = 0;
                while l < length
                    invariant
                        h < height,
                        w < width,
                        l <= length,
                        1 <= length,
                        1 <= width,
                        *brick_fn == f0,
                        f0 == *old(brick_fn),
                    f0 == *old(brick_fn),
                f0 == *old(brick_fn),
                        origin == (section_l as int, section_w as int, section_h as int),
                        section_l + length <= u32::MAX,
                        section_w + width <= u32::MAX,
                        section_h + height <= u32::MAX,
                        area == length * width,
                        1 <= area <= 255 * 255,
                        column_heights.len() == area,
                        column_colors.len() == area,
                        bricks.len() == h * area + w * length + l,
                        forall|l: u32, w: u32, h: u32, color: C| call_requires(f0, (l, w, h, color)),
                        Self::tables_match(
                            column_heights@,
                            column_colors@,
                            colors,
                            heights,
                            section_h as int,
                            length as int,
                            width as int,
                        ),
                    Self::tables_match(
                        column_heights@,
                        column_colors@,
                        colors,
                        heights,
                        section_h as int,
                        length as int,
                        width as int,
                    ),
                Self::tables_match(
                    column_heights@,
                    column_colors@,
                    colors,
                    heights,
                    section_h as int,
                    length as int,
                    width as int,
                ),
                        forall|c: Cell|
                            0 <= c.0 < length && 0 <= c.1 < width && (0 <= c.2 < h || (c.2 == h
                                && (c.1 < w || (c.1 == w && c.0 < l)))) ==> Self::sampled_ok(
                                f0,
                                origin,
                                column_heights@,
                                column_colors@,
                                bricks@,
                                sampled,
                                length as int,
                                width as int,
                                #[trigger] voxel_index(c, length as int, width as int),
                                c,
                            ),
                    decreases length - l,
                {
                    let ghost cur = (l as int, w as int, h as int);
                    let ghost before = bricks@;
                    let ghost sampled_before = sampled;
                    proof {
                        lemma_column_index(l as int, w as int, length as int, width as int);
                        lemma_voxel_index(cur, length as int, width as int, height as int);
                        assert(w as usize * length as usize <= 255 * 255) by (nonlinear_arith)
                            requires
                                w <= 255,
                                length <= 255,
                        ;
                        assert(voxel_index(cur, length as int, width as int) == before.len());
                    }
                    let column = w as usize * length as usize + l as usize;
                    if h < column_heights[column] {
                        let color = column_colors[column];
                        let brick = brick_fn(
                            section_l + l as u32,
                            section_w + w as u32,
                            section_h + h as u32,
                            color,
                        );
                        if brick.length() != 1 || brick.width() != 1 || brick.height() != 1 {
                            proof {
                                assert(column_heights@[column_index(
                                    l as int,
                                    w as int,
                                    length as int,
                                )] == slab_height_of(
                                    heights.spec_value(l as int, w as int) as int,
                                    section_h as int,
                                ));
                                assert(color == colors.spec_value(l as int, w as int));
                                assert(Self::asked(
                                    *old(brick_fn),
                                    origin,
                                    colors.spec_value(cur.0, cur.1),
                                    cur,
                                    brick,
                                ));
                            }
                            return Err(MosaicError::NotUnitBrick(brick));
                        }
                        bricks.push(Some(brick.unit_brick()));
                        proof {
                            sampled = |c: Cell| if c == cur { brick } else { sampled_before(c) };
                        }
                    } else {
                        bricks.push(None);
                    }
                    proof {
                        assert forall|c: Cell|
                            0 <= c.0 < length && 0 <= c.1 < width && (0 <= c.2 < h || (c.2 == h
                                && (c.1 < w || (c.1 == w && c.0 < l + 1))))
                                implies Self::sampled_ok(
                            f0,
                            origin,
                            column_heights@,
                            column_colors@,
                            bricks@,
                            sampled,
                            length as int,
                            width as int,
                            #[trigger] voxel_index(c, length as int, width as int),
                            c,
                        ) by {
                            let i = voxel_index(c, length as int, width as int);
                            lemma_voxel_index(c, length as int, width as int, height as int);
                            if c != cur {
                                if i == before.len() {
                                    lemma_voxel_index_injective(
                                        c,
                                        cur,
                                        length as int,
                                        width as int,
                                        height as int,
                                    );
                                }
                                assert(Self::sampled_ok(
                                    f0,
                                    origin,
                                    column_heights@,
                                    column_colors@,
                                    before,
                                    sampled_before,
                                    length as int,
                                    width as int,
                                    i,
                                    c,
                                ));
                                assert(i < before.len()) by {
                                    lemma_voxel_before(c, cur, length as int, width as int);
                                }
                                assert(bricks@[i] == before[i]);
                            }
                        }
                    }
                    l += 1;
                }
                proof {
                    assert((w + 1) * length == w * length + length) by (nonlinear_arith);
                }
                w += 1;
            }
            proof {
                assert((h + 1) * area == h * area + area) by (nonlinear_arith);
                assert(width * length == area) by (nonlinear_arith)
                    requires
                        area == length * width,
                ;
            }
            h += 1;
        }
        let slab = Slab {
            length,
            width,
            height,
            heights: column_heights,
            colors: column_colors,
            bricks,
        };
        proof {
            assert(height * area == length * width * height) by (nonlinear_arith)
                requires
                    area == length * width,
            ;
            assert forall|l: int, w: int| slab.in_area(l, w) implies 0 <= #[trigger] slab.height_at(
                l,
                w,
            ) <= slab.height by {
                lemma_column_index(l, w, length as int, width as int);
                assert(slab.heights@[column_index(l, w, length as int)] == slab_height_of(
                    heights.spec_value(l, w) as int,
                    section_h as int,
                ));
            }
            assert forall|c: Cell| #[trigger] slab.has(c) implies {
                &&& slab.bricks[voxel_index(c, slab.length as int, slab.width as int)] is Some
                &&& slab.chosen(*old(brick_fn), origin, c, sampled(c))
                &&& sampled(c).is_unit_size()
                &&& slab.brick_at(c) == sampled(c).spec_unit_brick()
            } by {
                lemma_column_index(c.0, c.1, length as int, width as int);
                assert(slab.height_at(c.0, c.1) <= slab.height);
                assert(Self::sampled_ok(
                    f0,
                    origin,
                    slab.heights@,
                    slab.colors@,
                    slab.bricks@,
                    sampled,
                    length as int,
                    width as int,
                    voxel_index(c, length as int, width as int),
                    c,
                ));
            }
            assert forall|l: int, w: int| 0 <= l < length && 0 <= w < width implies (
            #[trigger] slab.height_at(l, w) == slab_height_of(
                heights.spec_value(l, w) as int,
                section_h as int,
            )) by {
                lemma_column_index(l, w, length as int, width as int);
                assert(slab.heights@[column_index(l, w, length as int)] == slab_height_of(
                    heights.spec_value(l, w) as int,
                    section_h as int,
                ));
            }
            assert forall|l: int, w: int| 0 <= l < length && 0 <= w < width implies (
            #[trigger] slab.color_at(l, w) == colors.spec_value(l, w)) by {
                lemma_column_index(l, w, length as int, width as int);
                assert(slab.colors@[column_index(l, w, length as int)] == colors.spec_value(l, w));
            }
        }
        Ok((slab, Ghost(sampled)))
    }

    /// Whether the table of bricks is right at place `i`, the place of voxel `c`: if the
    /// column holds the voxel, the table has the unit brick of a brick that was chosen for
    /// it and is 1x1x1.
    pub open spec fn sampled_ok<B: NonUnitBrick<U>, BF: FnMut(u32, u32, u32, C) -> Brick<U, B>>(
        brick_fn: BF,
        origin: Cell,
        heights: Seq<u8>,
        colors: Seq<C>,
        bricks: Seq<Option<U>>,
        sampled: spec_fn(Cell) -> Brick<U, B>,
        length: int,
        width: int,
        i: int,
        c: Cell,
    ) -> bool {
        &&& 0 <= i < bricks.len()
        &&& c.2 < heights[column_index(c.0, c.1, length)] ==> {
            &&& bricks[i] is Some
            &&& bricks[i].unwrap() == sampled(c).spec_unit_brick()
            &&& sampled(c).is_unit_size()
            &&& call_ensures(
                brick_fn,
                (
                    (origin.0 + c.0) as u32,
                    (origin.1 + c.1) as u32,
                    (origin.2 + c.2) as u32,
                    colors[column_index(c.0, c.1, length)],
                ),
                sampled(c),
            )
        }
    }
}

/// A voxel that is scanned before another, layer by layer and row by row, has a smaller
/// place in the tables.
pub proof fn lemma_voxel_before(a: Cell, b: Cell, length: int, width: int)
    requires
        0 <= a.0 < length,
        0 <= a.1 < width,
        0 <= a.2,
        0 <= b.0 < length,
        0 <= b.1 < width,
        0 <= b.2,
        a.2 < b.2 || (a.2 == b.2 && (a.1 < b.1 || (a.1 == b.1 && a.0 < b.0))),
    ensures
        voxel_index(a, length, width) < voxel_index(b, length, width),
{
    let area = length * width;
    lemma_column_index(a.0, a.1, length, width);
    lemma_column_index(b.0, b.1, length, width);
    if a.2 < b.2 {
        assert(a.2 * area + area <= b.2 * area) by (nonlinear_arith)
            requires
                a.2 < b.2,
                0 <= area,
        ;
    } else if a.1 < b.1 {
        assert(a.1 * length + length <= b.1 * length) by (nonlinear_arith)
            requires
                a.1 < b.1,
                0 <= length,
        ;
    }
}

} // verus!
