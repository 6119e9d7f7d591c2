//! Chunks: connected regions of voxels of one unit brick and one color whose set of
//! columns is the same at every height, and the greedy rule that fills them, layer by
//! layer, with larger bricks.

use vstd::prelude::*;
use std::collections::BTreeSet;
use crate::brick::{Brick, NonUnitBrick, PlacedBrick, UnitBrick, count_filling, total_volume};
use crate::geometry::{Cell, box_set, box_within, in_box, lemma_box_len, positive};
use crate::grid::{fits, grid_cells, grid_has, remove_brick};
use crate::packing::{
    ChunkPlacedBrick,
    brick_dims,
    count_boxes,
    fills,
    eligible,
    first_fit,
    greedy,
    has_height,
    is_seed,
    layer_starts,
    layers,
    lemma_fills_count,
    lemma_fills_volume,
    lemma_greedy_is_packing,
    lemma_layer_starts_len,
    lemma_packing_within,
    one_layer,
    packing,
    remaining,
    usable_sizes,
    volume_sum,
};

verus! {

/// A brick of a catalog, ordered by its volume.
#[derive(Copy, Clone)]
pub struct VolumeSortedBrick<U, B> {
    pub brick: Brick<U, B>,
}

impl<U: UnitBrick, B: NonUnitBrick<U>> VolumeSortedBrick<U, B> {
    pub fn length(&self) -> (r: u8)
        ensures
            r == self.brick.spec_length(),
    {
        self.brick.length()
    }

    pub fn width(&self) -> (r: u8)
        ensures
            r == self.brick.spec_width(),
    {
        self.brick.width()
    }

    pub fn height(&self) -> (r: u8)
        ensures
            r == self.brick.spec_height(),
    {
        self.brick.height()
    }

    /// Whether the brick may be tried in a layer of height `t`.
    pub fn may_stand_in(&self, t: u8) -> (r: bool)
        ensures
            r == eligible(self.brick, t as int),
    {
        match self.brick {
            Brick::Unit(_) => true,
            Brick::NonUnit(_) => self.brick.height() == t,
        }
    }

    pub fn volume(&self) -> (r: u32)
        ensures
            r == self.brick.volume(),
    {
        let length: u32 = self.length() as u32;
        let width: u32 = self.width() as u32;
        let height: u32 = self.height() as u32;
        assert(length * width * height <= 255 * 255 * 255) by (nonlinear_arith)
            requires
                length <= 255,
                width <= 255,
                height <= 255,
        ;
        assert(length * width <= 255 * 255) by (nonlinear_arith)
            requires
                length <= 255,
                width <= 255,
        ;
        length * width * height
    }
}

/// The bricks of a list of catalog entries.
pub open spec fn bricks_of<U, B>(sizes: Seq<VolumeSortedBrick<U, B>>) -> Seq<Brick<U, B>> {
    sizes.map_values(|size: VolumeSortedBrick<U, B>| size.brick)
}

/// A region of voxels of one unit brick and one color, `spec_height()` voxels high above
/// each of its columns, with the bricks that fill it.
pub struct Chunk<U, B, C> {
    pub(crate) unit_brick: U,
    pub(crate) color: C,
    pub(crate) l: u8,
    pub(crate) w: u8,
    pub(crate) h: u8,
    pub(crate) length: u8,
    pub(crate) width: u8,
    pub(crate) height: u8,
    pub(crate) ws_included: Vec<BTreeSet<u8>>,
    pub(crate) bricks: Vec<ChunkPlacedBrick<U, B>>,
}

/// Whether the columns reach each side of a box that is as long as the list and `width`
/// wide: the first and the last set hold a column, and some set holds the first and
/// some set the last column along w.
pub open spec fn snug(ws_included: Seq<BTreeSet<u8>>, width: int) -> bool {
    &&& ws_included.len() > 0
    &&& 1 <= width <= 255
    &&& exists|w: u8| #[trigger] ws_included[0]@.contains(w)
    &&& exists|w: u8| #[trigger] ws_included[ws_included.len() - 1]@.contains(w)
    &&& exists|l: int| 0 <= l < ws_included.len() && (#[trigger] ws_included[l])@.contains(0u8)
    &&& exists|l: int|
        0 <= l < ws_included.len() && (#[trigger] ws_included[l])@.contains((width - 1) as u8)
}

/// Whether brick `a` stands before brick `b` in the order of l, then w, then h.
pub open spec fn stands_before<U, B>(a: ChunkPlacedBrick<U, B>, b: ChunkPlacedBrick<U, B>) -> bool {
    a.l < b.l || (a.l == b.l && (a.w < b.w || (a.w == b.w && a.h < b.h)))
}

/// Whether the bricks stand in the order of l, then w, then h.
pub open spec fn in_order<U, B>(bricks: Seq<ChunkPlacedBrick<U, B>>) -> bool {
    forall|i: int, j: int|
        0 <= i < j < bricks.len() ==> stands_before(#[trigger] bricks[i], #[trigger] bricks[j])
}

/// Whether one of `sizes` is `t` high.
pub fn any_of_height<U: UnitBrick, B: NonUnitBrick<U>>(
    sizes: &Vec<VolumeSortedBrick<U, B>>,
    t: u8,
) -> (r: bool)
    ensures
        r == has_height(bricks_of(sizes@), t as int),
{
    let ghost catalog = bricks_of(sizes@);
    let mut k: usize = 0;
    while k < sizes.len()
        invariant
            k <= sizes.len(),
            catalog == bricks_of(sizes@),
            forall|j: int| 0 <= j < k ==> (#[trigger] catalog[j]).spec_height() != t,
        decreases sizes.len() - k,
    {
        if sizes[k].height() == t {
            assert(catalog[k as int].spec_height() == t);
            return true;
        }
        k += 1;
    }
    false
}

/// The layers of a chunk that is `height` high: for each height the height of the
/// layer that begins there, or 0 where none begins.
pub fn layer_heights<U: UnitBrick, B: NonUnitBrick<U>>(
    sizes: &Vec<VolumeSortedBrick<U, B>>,
    height: u8,
) -> (r: Vec<u8>)
    ensures
        r.len() == height,
        forall|h: int|
            0 <= h < height ==> (#[trigger] r[h]) as int == layers(bricks_of(sizes@), height as int)[h],
{
    let ghost catalog = bricks_of(sizes@);
    let ghost whole = layers(catalog, height as int);
    let ghost mut built: Seq<int> = Seq::empty();
    let mut starts: Vec<u8> = Vec::new();
    let mut rest: u8 = height;
    let mut t: u8 = 255;
    proof {
        assert(built + layer_starts(catalog, rest as int, t as int) =~= whole);
    }
    while t >= 2
        invariant
            1 <= t <= 255,
            rest <= height,
            catalog == bricks_of(sizes@),
            whole == layers(catalog, height as int),
            starts.len() + rest == height,
            built.len() == starts.len(),
            forall|i: int| 0 <= i < starts.len() ==> (#[trigger] starts[i]) as int == built[i],
            built + layer_starts(catalog, rest as int, t as int) == whole,
        decreases t,
    {
        let tall = any_of_height(sizes, t);
        while tall && rest >= t
            invariant
                2 <= t <= 255,
                rest <= height,
                catalog == bricks_of(sizes@),
                whole == layers(catalog, height as int),
                tall == has_height(catalog, t as int),
                starts.len() + rest == height,
                built.len() == starts.len(),
                forall|i: int| 0 <= i < starts.len() ==> (#[trigger] starts[i]) as int == built[i],
                built + layer_starts(catalog, rest as int, t as int) == whole,
            decreases rest,
        {
            let ghost before = built;
            starts.push(t);
            proof {
                built = built.push(t as int);
            }
            let mut above: u8 = 1;
            while above < t
                invariant
                    1 <= above <= t,
                    starts.len() + rest == height + above,
                    built.len() == starts.len(),
                    forall|i: int|
                        0 <= i < starts.len() ==> (#[trigger] starts[i]) as int == built[i],
                    built == before + one_layer(t as int).subrange(0, above as int),
                decreases t - above,
            {
                starts.push(0);
                proof {
                    let longer = built.push(0);
                    assert(longer =~= before + one_layer(t as int).subrange(0, above + 1));
                    built = longer;
                }
                above += 1;
            }
            proof {
                assert(one_layer(t as int).subrange(0, t as int) =~= one_layer(t as int));
                assert(built + layer_starts(catalog, rest - t, t as int) =~= before + layer_starts(
                    catalog,
                    rest as int,
                    t as int,
                ));
            }
            rest -= t;
        }
        t -= 1;
    }
    while rest > 0
        invariant
            t == 1,
            rest <= height,
            starts.len() + rest == height,
            built.len() == starts.len(),
            forall|i: int| 0 <= i < starts.len() ==> (#[trigger] starts[i]) as int == built[i],
            built + layer_starts(catalog, rest as int, 1) == whole,
        decreases rest,
    {
        starts.push(1);
        proof {
            let longer = built.push(1);
            assert(longer + layer_starts(catalog, rest - 1, 1) =~= built + layer_starts(
                catalog,
                rest as int,
                1,
            ));
            built = longer;
        }
        rest -= 1;
    }
    proof {
        assert(built =~= whole);
    }
    starts
}

/// A copy of one layer.
fn clone_layer(layer: &Vec<BTreeSet<u8>>) -> (r: Vec<BTreeSet<u8>>)
    ensures
        r.len() == layer.len(),
        forall|l: int| 0 <= l < layer.len() ==> (#[trigger] r[l])@ == layer[l]@,
{
    let mut r: Vec<BTreeSet<u8>> = Vec::new();
    let mut l: usize = 0;
    while l < layer.len()
        invariant
            l <= layer.len(),
            r.len() == l,
            forall|i: int| 0 <= i < l ==> (#[trigger] r[i])@ == layer[i]@,
        decreases layer.len() - l,
    {
        r.push(layer[l].clone());
        l += 1;
    }
    r
}

impl<U: UnitBrick, B: NonUnitBrick<U>, C: Copy> Chunk<U, B, C> {
    /// The unit brick of every voxel of the chunk.
    pub closed spec fn spec_unit_brick(&self) -> U {
        self.unit_brick
    }

    /// The color of every voxel of the chunk.
    pub closed spec fn spec_color(&self) -> C {
        self.color
    }

    /// The lowest corner of the chunk's bounding box, inside its section.
    pub closed spec fn origin(&self) -> Cell {
        (self.l as int, self.w as int, self.h as int)
    }

    /// The extents of the chunk's bounding box.
    pub closed spec fn dims(&self) -> Cell {
        (self.length as int, self.width as int, self.height as int)
    }

    /// Whether column (l, w), counted from the chunk's corner, belongs to the chunk.
    pub closed spec fn has_column(&self, l: int, w: int) -> bool {
        &&& 0 <= l < self.length
        &&& l < self.ws_included.len()
        &&& 0 <= w < self.width
        &&& self.ws_included[l]@.contains(w as u8)
    }

    /// The voxels of the chunk, counted from its corner: every height over every column.
    pub open spec fn cells(&self) -> Set<Cell> {
        Set::new(|c: Cell| self.has_column(c.0, c.1) && 0 <= c.2 < self.dims().2)
    }

    /// The bricks that fill the chunk, placed from its corner.
    pub closed spec fn spec_bricks(&self) -> Seq<ChunkPlacedBrick<U, B>> {
        self.bricks@
    }

    /// The chunk has positive extents, lies in a section of 255 voxels a side, has its
    /// columns inside its bounding box, and its bricks fill it exactly.
    pub closed spec fn wf(&self) -> bool {
        &&& self.length >= 1
        &&& self.width >= 1
        &&& self.height >= 1
        &&& self.l + self.length <= 255
        &&& self.w + self.width <= 255
        &&& self.h + self.height <= 255
        &&& self.ws_included.len() == self.length
        &&& forall|l: int, w: u8|
            0 <= l < self.length && #[trigger] self.ws_included[l]@.contains(w) ==> w < self.width
        &&& snug(self.ws_included@, self.width as int)
        &&& fills(self.cells(), self.bricks@)
    }

    /// The chunk's bounding box is the smallest that holds its columns: the chunk has a
    /// column at each of the four sides of the box.
    pub proof fn lemma_snug(&self)
        requires
            self.wf(),
        ensures
            exists|w: int| #[trigger] self.has_column(0, w),
            exists|w: int| #[trigger] self.has_column(self.dims().0 - 1, w),
            exists|l: int| #[trigger] self.has_column(l, 0),
            exists|l: int| #[trigger] self.has_column(l, self.dims().1 - 1),
    {
        let first = choose|w: u8| #[trigger] self.ws_included@[0]@.contains(w);
        assert(self.has_column(0, first as int));
        let last = choose|w: u8| #[trigger] self.ws_included@[self.ws_included@.len() - 1]@.contains(w);
        assert(self.has_column(self.dims().0 - 1, last as int));
        let top = choose|l: int|
            0 <= l < self.ws_included@.len() && (#[trigger] self.ws_included@[l])@.contains(0u8);
        assert(self.has_column(top, 0));
        let bottom = choose|l: int|
            0 <= l < self.ws_included@.len() && (#[trigger] self.ws_included@[l])@.contains(
                (self.width - 1) as u8,
            );
        assert(self.has_column(bottom, self.dims().1 - 1));
    }

    /// The unit brick of every voxel of the chunk.
    pub fn unit_brick(&self) -> (r: U)
        ensures
            r == self.spec_unit_brick(),
    {
        self.unit_brick
    }

    /// The color of every voxel of the chunk.
    pub fn color(&self) -> (r: C)
        ensures
            r == self.spec_color(),
    {
        self.color
    }

    /// Where the chunk's bounding box begins along l, inside its section.
    pub fn l(&self) -> (r: u8)
        ensures
            r == self.origin().0,
    {
        self.l
    }

    /// Where the chunk's bounding box begins along w, inside its section.
    pub fn w(&self) -> (r: u8)
        ensures
            r == self.origin().1,
    {
        self.w
    }

    /// Where the chunk's bounding box begins along h, inside its section.
    pub fn h(&self) -> (r: u8)
        ensures
            r == self.origin().2,
    {
        self.h
    }

    /// The extent of the chunk's bounding box along l.
    pub fn length(&self) -> (r: u8)
        ensures
            r == self.dims().0,
    {
        self.length
    }

    /// The extent of the chunk's bounding box along w.
    pub fn width(&self) -> (r: u8)
        ensures
            r == self.dims().1,
    {
        self.width
    }

    /// The extent of the chunk along h.
    pub fn height(&self) -> (r: u8)
        ensures
            r == self.dims().2,
    {
        self.height
    }

    /// The bricks that fill the chunk, placed from its corner.
    pub fn bricks(&self) -> (r: &Vec<ChunkPlacedBrick<U, B>>)
        ensures
            r@ == self.spec_bricks(),
    {
        &self.bricks
    }

    /// Whether column (l, w), counted from the chunk's corner, belongs to the chunk.
    pub fn includes(&self, l: u8, w: u8) -> (r: bool)
        ensures
            r == self.has_column(l as int, w as int),
    {
        l < self.length && (l as usize) < self.ws_included.len() && w < self.width
            && self.ws_included[l as usize].contains(&w)
    }

    /// Whether the chunk holds voxel `c`, counted from the corner of the chunk's section.
    pub open spec fn covers(&self, c: Cell) -> bool {
        &&& self.has_column(c.0 - self.origin().0, c.1 - self.origin().1)
        &&& self.origin().2 <= c.2 < self.origin().2 + self.dims().2
    }

    /// Whether every brick of the chunk is the chunk's unit brick, and the bricks stand in
    /// the order of l, then w, then h.
    pub closed spec fn is_units(&self) -> bool {
        &&& forall|i: int|
            0 <= i < self.bricks@.len() ==> (#[trigger] self.bricks@[i]).brick == Brick::<
                U,
                B,
            >::Unit(self.unit_brick)
        &&& in_order(self.bricks@)
    }

    /// A chunk of the given columns, `height` voxels high, filled with unit bricks: one
    /// for each voxel, column by column, each column from the bottom up.
    pub fn of_units(
        unit_brick: U,
        color: C,
        l: u8,
        w: u8,
        h: u8,
        width: u8,
        height: u8,
        ws_included: Vec<BTreeSet<u8>>,
    ) -> (r: Self)
        requires
            1 <= ws_included.len(),
            l + ws_included.len() <= 255,
            1 <= width,
            w + width <= 255,
            1 <= height,
            h + height <= 255,
            forall|rl: int, rw: u8|
                0 <= rl < ws_included.len() && #[trigger] ws_included[rl]@.contains(rw) ==> rw
                    < width,
            snug(ws_included@, width as int),
        ensures
            r.wf(),
            r.is_units(),
            r.spec_unit_brick() == unit_brick,
            r.spec_color() == color,
            r.origin() == (l as int, w as int, h as int),
            r.dims() == (ws_included.len() as int, width as int, height as int),
            forall|rl: int, rw: int|
                r.has_column(rl, rw) <==> 0 <= rl < ws_included.len() && 0 <= rw < width
                    && ws_included[rl]@.contains(rw as u8),
    {
        let length: u8 = ws_included.len() as u8;
        let ghost cells = Set::new(
            |c: Cell|
                0 <= c.0 < length && 0 <= c.1 < width && ws_included[c.0]@.contains(c.1 as u8) && 0
                    <= c.2 < height,
        );
        let mut bricks: Vec<ChunkPlacedBrick<U, B>> = Vec::new();
        let mut rel_l: u8 = 0;
        while rel_l < length
            invariant
                rel_l <= length,
                length == ws_included.len(),
                1 <= width,
                1 <= height,
                cells == Set::new(
                    |c: Cell|
                        0 <= c.0 < length && 0 <= c.1 < width && ws_included[c.0]@.contains(
                            c.1 as u8,
                        ) && 0 <= c.2 < height,
                ),
                packing(cells, bricks@),
                remaining(cells, bricks@) =~= Set::new(|c: Cell| cells.contains(c) && c.0 >= rel_l),
                forall|i: int|
                    0 <= i < bricks@.len() ==> (#[trigger] bricks@[i]).brick == Brick::<U, B>::Unit(
                        unit_brick,
                    ),
                in_order(bricks@),
                forall|i: int| 0 <= i < bricks@.len() ==> (#[trigger] bricks@[i]).l < rel_l,
            decreases length - rel_l,
        {
            let mut rel_w: u8 = 0;
            while rel_w < width
                invariant
                    rel_l < length,
                    rel_w <= width,
                    length == ws_included.len(),
                    1 <= width,
                    1 <= height,
                    cells == Set::new(
                        |c: Cell|
                            0 <= c.0 < length && 0 <= c.1 < width && ws_included[c.0]@.contains(
                                c.1 as u8,
                            ) && 0 <= c.2 < height,
                    ),
                    packing(cells, bricks@),
                    remaining(cells, bricks@) =~= Set::new(
                        |c: Cell| cells.contains(c) && (c.0 > rel_l || (c.0 == rel_l && c.1 >= rel_w)),
                    ),
                    forall|i: int|
                        0 <= i < bricks@.len() ==> (#[trigger] bricks@[i]).brick == Brick::<
                            U,
                            B,
                        >::Unit(unit_brick),
                    in_order(bricks@),
                    forall|i: int|
                        0 <= i < bricks@.len() ==> (#[trigger] bricks@[i]).l < rel_l || (
                        bricks@[i].l == rel_l && bricks@[i].w < rel_w),
                decreases width - rel_w,
            {
                if ws_included[rel_l as usize].contains(&rel_w) {
                    let mut rel_h: u8 = 0;
                    while rel_h < height
                        invariant
                            rel_l < length,
                            rel_w < width,
                            rel_h <= height,
                            length == ws_included.len(),
                            ws_included[rel_l as int]@.contains(rel_w),
                            cells == Set::new(
                                |c: Cell|
                                    0 <= c.0 < length && 0 <= c.1 < width
                                        && ws_included[c.0]@.contains(c.1 as u8) && 0 <= c.2
                                        < height,
                            ),
                            packing(cells, bricks@),
                            remaining(cells, bricks@) =~= Set::new(
                                |c: Cell|
                                    cells.contains(c) && (c.0 > rel_l || (c.0 == rel_l && (c.1
                                        > rel_w || (c.1 == rel_w && c.2 >= rel_h)))),
                            ),
                            forall|i: int|
                                0 <= i < bricks@.len() ==> (#[trigger] bricks@[i]).brick == Brick::<
                                    U,
                                    B,
                                >::Unit(unit_brick),
                            in_order(bricks@),
                            forall|i: int|
                                0 <= i < bricks@.len() ==> (#[trigger] bricks@[i]).l < rel_l || (
                                bricks@[i].l == rel_l && (bricks@[i].w < rel_w || (bricks@[i].w
                                    == rel_w && bricks@[i].h < rel_h))),
                        decreases height - rel_h,
                    {
                        let ghost before = bricks@;
                        let brick = ChunkPlacedBrick {
                            l: rel_l,
                            w: rel_w,
                            h: rel_h,
                            brick: Brick::Unit(unit_brick),
                        };
                        bricks.push(brick);
                        proof {
                            let spot = (rel_l as int, rel_w as int, rel_h as int);
                            assert(bricks@.drop_last() =~= before);
                            assert(bricks@.last() == brick);
                            assert(brick.dims() == (1int, 1int, 1int));
                            assert(cells.contains(spot));
                            assert forall|c: Cell| in_box(c, spot, brick.dims()) implies remaining(
                                cells,
                                before,
                            ).contains(c) by {
                                assert(c == spot);
                            }
                            assert forall|c: Cell| brick.voxels().contains(c) <==> c == spot by {
                                assert(brick.voxels().contains(c) == in_box(c, spot, brick.dims()));
                            }
                            assert forall|i: int| 0 <= i < bricks@.len() implies (
                            #[trigger] bricks@[i]).brick == Brick::<U, B>::Unit(unit_brick) by {
                                if i < before.len() {
                                    assert(bricks@[i] == before[i]);
                                }
                            }
                            assert forall|i: int, j: int|
                                0 <= i < j < bricks@.len() implies stands_before(
                                #[trigger] bricks@[i],
                                #[trigger] bricks@[j],
                            ) by {
                                assert(bricks@[i] == before[i]);
                                if j < before.len() {
                                    assert(bricks@[j] == before[j]);
                                }
                            }
                            assert forall|i: int| 0 <= i < bricks@.len() implies (
                            #[trigger] bricks@[i]).l < rel_l || (bricks@[i].l == rel_l && (
                            bricks@[i].w < rel_w || (bricks@[i].w == rel_w && bricks@[i].h < rel_h
                                + 1))) by {
                                if i < before.len() {
                                    assert(bricks@[i] == before[i]);
                                }
                            }
                        }
                        rel_h += 1;
                    }
                }
                rel_w += 1;
            }
            rel_l += 1;
        }
        let r = Chunk { unit_brick, color, l, w, h, length, width, height, ws_included, bricks };
        proof {
            assert(r.cells() =~= cells);
            assert(remaining(cells, r.bricks@) =~= Set::<Cell>::empty());
        }
        r
    }

    /// The number of voxels that the chunk's bricks fill.
    pub closed spec fn volume(&self) -> nat {
        volume_sum(self.bricks@)
    }

    /// The chunk's bricks fill as many voxels as the chunk holds.
    pub proof fn lemma_volume(&self)
        requires
            self.wf(),
        ensures
            self.cells().finite(),
            self.volume() == self.cells().len(),
    {
        let bounds = box_set((0int, 0int, 0int), self.dims());
        lemma_box_len((0int, 0int, 0int), self.dims());
        assert(self.cells().subset_of(bounds)) by {
            assert forall|c: Cell| self.cells().contains(c) implies bounds.contains(c) by {
                assert(in_box(c, (0int, 0int, 0int), self.dims()));
            }
        }
        vstd::set_lib::lemma_len_subset(self.cells(), bounds);
        lemma_fills_volume(self.cells(), self.bricks@);
    }

    /// Where every brick of the chunk is the chunk's unit brick, each is, and the bricks
    /// stand in the order of l, then w, then h.
    pub proof fn lemma_is_units(&self, i: int)
        requires
            self.is_units(),
            0 <= i < self.spec_bricks().len(),
        ensures
            self.spec_bricks()[i].brick == Brick::<U, B>::Unit(self.spec_unit_brick()),
            in_order(self.spec_bricks()),
    {
    }

    /// A voxel that a placed brick of the chunk fills is a voxel of the chunk.
    pub proof fn lemma_placed_inside(&self, offset: Cell, i: int, v: Cell)
        requires
            self.wf(),
            self.fits_at(offset),
            0 <= i < self.spec_bricks().len(),
            self.place(offset, self.spec_bricks()[i]).fills(v.0, v.1, v.2),
        ensures
            self.covers((v.0 - offset.0, v.1 - offset.1, v.2 - offset.2)),
    {
        let brick = self.bricks@[i];
        self.lemma_brick_inside(i);
        lemma_packing_within(self.cells(), self.bricks@, i);
        let inner = (
            v.0 - offset.0 - self.origin().0,
            v.1 - offset.1 - self.origin().1,
            v.2 - offset.2 - self.origin().2,
        );
        assert(in_box(inner, brick.origin(), brick.dims()));
        assert(self.cells().contains(inner));
    }

    /// The chunk lies within 255 voxels of the section's corner.
    pub proof fn lemma_dims_small(&self)
        requires
            self.wf(),
        ensures
            0 <= self.origin().0,
            0 <= self.origin().1,
            0 <= self.origin().2,
            self.origin().0 + self.dims().0 <= 255,
            self.origin().1 + self.dims().1 <= 255,
            self.origin().2 + self.dims().2 <= 255,
    {
    }

    /// A voxel of the chunk lies within 255 voxels of the section's corner.
    pub proof fn lemma_covers_near(&self, c: Cell)
        requires
            self.wf(),
            self.covers(c),
        ensures
            0 <= c.0 < 255,
            0 <= c.1 < 255,
            0 <= c.2 < 255,
            self.origin().0 <= c.0 < self.origin().0 + self.dims().0,
            self.origin().1 <= c.1 < self.origin().1 + self.dims().1,
    {
    }

    /// The brick `brick` of the chunk, placed in a mosaic whose section begins at `offset`.
    pub open spec fn place(&self, offset: Cell, brick: ChunkPlacedBrick<U, B>) -> PlacedBrick<U, B, C> {
        PlacedBrick {
            l: (offset.0 + self.origin().0 + brick.l) as u32,
            w: (offset.1 + self.origin().1 + brick.w) as u32,
            h: (offset.2 + self.origin().2 + brick.h) as u32,
            brick: brick.brick,
            color: self.spec_color(),
        }
    }

    /// The bricks of the chunk, placed in a mosaic whose section begins at `offset`.
    pub open spec fn placements(&self, offset: Cell) -> Seq<PlacedBrick<U, B, C>> {
        self.spec_bricks().map_values(|brick: ChunkPlacedBrick<U, B>| self.place(offset, brick))
    }

    /// Whether the chunk, in a section that begins at `offset`, lies below the largest
    /// coordinate.
    pub open spec fn fits_at(&self, offset: Cell) -> bool {
        &&& 0 <= offset.0
        &&& 0 <= offset.1
        &&& 0 <= offset.2
        &&& offset.0 + self.origin().0 + self.dims().0 <= u32::MAX
        &&& offset.1 + self.origin().1 + self.dims().1 <= u32::MAX
        &&& offset.2 + self.origin().2 + self.dims().2 <= u32::MAX
    }

    /// Every brick of the chunk lies inside the chunk's bounding box.
    pub proof fn lemma_brick_inside(&self, i: int)
        requires
            self.wf(),
            0 <= i < self.spec_bricks().len(),
        ensures
            positive(self.spec_bricks()[i].dims()),
            self.spec_bricks()[i].l + self.spec_bricks()[i].dims().0 <= self.dims().0,
            self.spec_bricks()[i].w + self.spec_bricks()[i].dims().1 <= self.dims().1,
            self.spec_bricks()[i].h + self.spec_bricks()[i].dims().2 <= self.dims().2,
    {
        let brick = self.bricks@[i];
        lemma_packing_within(self.cells(), self.bricks@, i);
        let corner = (
            brick.l + brick.dims().0 - 1,
            brick.w + brick.dims().1 - 1,
            brick.h + brick.dims().2 - 1,
        );
        assert(in_box(corner, brick.origin(), brick.dims()));
        assert(self.cells().contains(corner));
    }

    /// Of the chunk's placed bricks, exactly one fills each voxel of the chunk, and none
    /// fills any other voxel.
    pub proof fn lemma_placements_count(&self, offset: Cell, v: Cell)
        requires
            self.wf(),
            self.fits_at(offset),
        ensures
            count_filling(self.placements(offset), v.0, v.1, v.2) == (if self.covers(
                (v.0 - offset.0, v.1 - offset.1, v.2 - offset.2),
            ) {
                1nat
            } else {
                0nat
            }),
    {
        let rel = (
            v.0 - offset.0 - self.origin().0,
            v.1 - offset.1 - self.origin().1,
            v.2 - offset.2 - self.origin().2,
        );
        assert forall|i: int| 0 <= i < self.bricks@.len() implies self.inside(
            #[trigger] self.bricks@[i],
        ) by {
            self.lemma_brick_inside(i);
        }
        self.lemma_count_placed(offset, self.bricks@, v);
        lemma_fills_count(self.cells(), self.bricks@, rel);
    }

    /// Whether the brick lies inside the chunk's bounding box.
    pub open spec fn inside(&self, brick: ChunkPlacedBrick<U, B>) -> bool {
        &&& brick.l + brick.dims().0 <= self.dims().0
        &&& brick.w + brick.dims().1 <= self.dims().1
        &&& brick.h + brick.dims().2 <= self.dims().2
    }

    /// As many of the placed bricks fill a voxel of the mosaic as bricks fill the same
    /// voxel counted from the chunk's corner.
    pub proof fn lemma_count_placed(&self, offset: Cell, bricks: Seq<ChunkPlacedBrick<U, B>>, v: Cell)
        requires
            self.fits_at(offset),
            forall|i: int| 0 <= i < bricks.len() ==> self.inside(#[trigger] bricks[i]),
        ensures
            count_filling(
                bricks.map_values(|brick: ChunkPlacedBrick<U, B>| self.place(offset, brick)),
                v.0,
                v.1,
                v.2,
            ) == count_boxes(
                bricks,
                (
                    v.0 - offset.0 - self.origin().0,
                    v.1 - offset.1 - self.origin().1,
                    v.2 - offset.2 - self.origin().2,
                ),
            ),
        decreases bricks.len(),
    {
        let placed = bricks.map_values(|brick: ChunkPlacedBrick<U, B>| self.place(offset, brick));
        if bricks.len() > 0 {
            let shorter = bricks.drop_last();
            assert(placed.drop_last() =~= shorter.map_values(
                |brick: ChunkPlacedBrick<U, B>| self.place(offset, brick),
            ));
            assert forall|i: int| 0 <= i < shorter.len() implies self.inside(
                #[trigger] shorter[i],
            ) by {
                assert(shorter[i] == bricks[i]);
            }
            self.lemma_count_placed(offset, shorter, v);
            let last = bricks.last();
            assert(self.inside(last));
            assert(placed.last() == self.place(offset, last));
            let rel = (
                v.0 - offset.0 - self.origin().0,
                v.1 - offset.1 - self.origin().1,
                v.2 - offset.2 - self.origin().2,
            );
            assert(last.voxels().contains(rel) == in_box(rel, last.origin(), last.dims()));
        }
    }

    /// The placed bricks fill as many voxels as the bricks.
    pub proof fn lemma_volume_placed(&self, offset: Cell, bricks: Seq<ChunkPlacedBrick<U, B>>)
        ensures
            total_volume(
                bricks.map_values(|brick: ChunkPlacedBrick<U, B>| self.place(offset, brick)),
            ) == volume_sum(bricks),
        decreases bricks.len(),
    {
        let placed = bricks.map_values(|brick: ChunkPlacedBrick<U, B>| self.place(offset, brick));
        if bricks.len() > 0 {
            assert(placed.drop_last() =~= bricks.drop_last().map_values(
                |brick: ChunkPlacedBrick<U, B>| self.place(offset, brick),
            ));
            self.lemma_volume_placed(offset, bricks.drop_last());
        }
    }

    /// The chunk's placed bricks fill as many voxels as the chunk's bricks.
    pub proof fn lemma_placements_volume(&self, offset: Cell)
        ensures
            total_volume(self.placements(offset)) == self.volume(),
    {
        self.lemma_volume_placed(offset, self.bricks@);
    }

    /// The chunk's bricks, placed in a mosaic whose section begins at (l, w, h).
    pub fn placed(&self, l: u32, w: u32, h: u32) -> (r: Vec<PlacedBrick<U, B, C>>)
        requires
            self.wf(),
            self.fits_at((l as int, w as int, h as int)),
        ensures
            r@ == self.placements((l as int, w as int, h as int)),
    {
        let ghost offset = (l as int, w as int, h as int);
        let mut r: Vec<PlacedBrick<U, B, C>> = Vec::new();
        let mut i: usize = 0;
        while i < self.bricks.len()
            invariant
                self.wf(),
                self.fits_at(offset),
                offset == (l as int, w as int, h as int),
                i <= self.bricks.len(),
                r@.len() == i,
                forall|k: int| 0 <= k < i ==> #[trigger] r@[k] == self.place(offset, self.bricks@[k]),
            decreases self.bricks.len() - i,
        {
            let brick = self.bricks[i];
            proof {
                self.lemma_brick_inside(i as int);
            }
            r.push(
                PlacedBrick {
                    l: l + self.l as u32 + brick.l as u32,
                    w: w + self.w as u32 + brick.w as u32,
                    h: h + self.h as u32 + brick.h as u32,
                    brick: brick.brick,
                    color: self.color,
                },
            );
            i += 1;
        }
        proof {
            assert(r@ =~= self.placements(offset));
        }
        r
    }

    /// Replaces the chunk's bricks by what the greedy rule places from `sizes`. The
    /// chunk's height is cut into layers, the tallest bricks first; at the voxel that is
    /// scanned first among those still to be filled, the first brick of `sizes` is placed
    /// that is as tall as the layer that begins there and fits, and the unit brick where
    /// none does. Color, unit brick, position and columns stay.
    pub fn reduce_bricks(self, sizes: &Vec<VolumeSortedBrick<U, B>>) -> (r: Self)
        requires
            self.wf(),
            usable_sizes(bricks_of(sizes@)),
        ensures
            r.wf(),
            r.spec_unit_brick() == self.spec_unit_brick(),
            r.spec_color() == self.spec_color(),
            r.origin() == self.origin(),
            r.dims() == self.dims(),
            forall|l: int, w: int| r.has_column(l, w) == self.has_column(l, w),
            r.cells() == self.cells(),
            greedy(
                self.cells(),
                bricks_of(sizes@),
                layers(bricks_of(sizes@), self.dims().2),
                r.spec_bricks(),
            ),
            fills(self.cells(), r.spec_bricks()),
            r.volume() == self.volume(),
    {
        let ghost cells = self.cells();
        let ghost catalog = bricks_of(sizes@);
        let mut grid: Vec<Vec<BTreeSet<u8>>> = Vec::new();
        let mut copies: u8 = 0;
        while copies < self.height
            invariant
                copies <= self.height,
                grid.len() == copies,
                self.ws_included.len() == self.length,
                forall|h: int| 0 <= h < copies ==> (#[trigger] grid[h]).len() == self.length,
                forall|h: int, l: int|
                    0 <= h < copies && 0 <= l < self.length ==> (#[trigger] grid[h][l])@
                        == self.ws_included[l]@,
            decreases self.height - copies,
        {
            let layer = clone_layer(&self.ws_included);
            grid.push(layer);
            copies += 1;
        }
        proof {
            assert forall|c: Cell| grid_has(grid@, c) == cells.contains(c) by {
                if 0 <= c.2 < self.height && 0 <= c.0 < self.length {
                    assert(grid[c.2][c.0]@ == self.ws_included[c.0]@);
                    if 0 <= c.1 < 256 && self.ws_included[c.0]@.contains(c.1 as u8) {
                        assert(c.1 < self.width);
                    }
                }
            }
            assert(grid_cells(grid@) =~= cells);
        }
        let mut bricks: Vec<ChunkPlacedBrick<U, B>> = Vec::new();
        let starts = layer_heights(sizes, self.height);
        let ghost plan = layers(catalog, self.height as int);
        proof {
            lemma_layer_starts_len(catalog, self.height as int, 255);
        }

        /* For every voxel that is still to be filled, in scan order, place the first brick
           of the layer's height that fits there with all of its voxels. The bricks are
           ordered by volume, so the largest that fits is chosen. This may not give the
           fewest bricks, but the unit brick always fits, so every voxel is filled. */
        let mut h: u8 = 0;
        while h < self.height
            invariant
                h <= self.height,
                self.wf(),
                cells == self.cells(),
                catalog == bricks_of(sizes@),
                usable_sizes(catalog),
                grid.len() == self.height,
                forall|hh: int| 0 <= hh < self.height ==> (#[trigger] grid[hh]).len() == self.length,
                greedy(cells, catalog, plan, bricks@),
                plan.len() == self.height,
                starts.len() == self.height,
                forall|hh: int| 0 <= hh < self.height ==> (#[trigger] starts[hh]) as int == plan[hh],
                remaining(cells, bricks@) =~= grid_cells(grid@),
                forall|c: Cell| #[trigger] grid_has(grid@, c) ==> cells.contains(c),
                forall|c: Cell| #[trigger] grid_has(grid@, c) ==> c.2 >= h,
            decreases self.height - h,
        {
            let mut l: u8 = 0;
            while l < self.length
                invariant
                    h < self.height,
                    l <= self.length,
                    self.wf(),
                    cells == self.cells(),
                    catalog == bricks_of(sizes@),
                    usable_sizes(catalog),
                    grid.len() == self.height,
                    forall|hh: int|
                        0 <= hh < self.height ==> (#[trigger] grid[hh]).len() == self.length,
                    greedy(cells, catalog, plan, bricks@),
                plan.len() == self.height,
                starts.len() == self.height,
                forall|hh: int| 0 <= hh < self.height ==> (#[trigger] starts[hh]) as int == plan[hh],
                    remaining(cells, bricks@) =~= grid_cells(grid@),
                    forall|c: Cell| #[trigger] grid_has(grid@, c) ==> cells.contains(c),
                    forall|c: Cell|
                        #[trigger] grid_has(grid@, c) ==> c.2 > h || (c.2 == h && c.0 >= l),
                decreases self.length - l,
            {
                let mut w: u8 = 0;
                while w < self.width
                    invariant
                        h < self.height,
                        l < self.length,
                        w <= self.width,
                        self.wf(),
                        cells == self.cells(),
                        catalog == bricks_of(sizes@),
                        usable_sizes(catalog),
                        grid.len() == self.height,
                        forall|hh: int|
                            0 <= hh < self.height ==> (#[trigger] grid[hh]).len() == self.length,
                        greedy(cells, catalog, plan, bricks@),
                plan.len() == self.height,
                starts.len() == self.height,
                forall|hh: int| 0 <= hh < self.height ==> (#[trigger] starts[hh]) as int == plan[hh],
                        remaining(cells, bricks@) =~= grid_cells(grid@),
                        forall|c: Cell| #[trigger] grid_has(grid@, c) ==> cells.contains(c),
                    forall|c: Cell| #[trigger] grid_has(grid@, c) ==> cells.contains(c),
                        forall|c: Cell|
                            #[trigger] grid_has(grid@, c) ==> c.2 > h || (c.2 == h && (c.0 > l || (
                            c.0 == l && c.1 >= w))),
                    decreases self.width - w,
                {
                    if grid[h as usize][l as usize].contains(&w) {
                        let ghost seed = (l as int, w as int, h as int);
                        let ghost rest = grid_cells(grid@);
                        let ghost before = bricks@;
                        proof {
                            assert(grid_has(grid@, seed));
                            assert(is_seed(rest, seed)) by {
                                assert forall|c: Cell| rest.contains(c) implies !crate::geometry::scans_before(
                                    c,
                                    seed,
                                ) by {
                                    assert(grid_has(grid@, c));
                                }
                            }
                        }
                        let k = Self::first_fitting(l, w, h, sizes, &grid, starts[h as usize]);
                        let size = sizes[k];
                        remove_brick(l, w, h, size.length(), size.width(), size.height(), &mut grid);
                        bricks.push(ChunkPlacedBrick { l, w, h, brick: size.brick });
                        proof {
                            let placed = bricks@.last();
                            assert(bricks@.drop_last() =~= before);
                            assert(placed.origin() == seed);
                            assert(placed.dims() == brick_dims(catalog[k as int]));
                            assert(placed.brick == catalog[k as int]);
                            assert(first_fit(rest, seed, catalog, plan[h as int], k as int));
                            assert(remaining(cells, before) == rest);
                            assert(greedy(cells, catalog, plan, bricks@));
                            assert(positive(brick_dims(catalog[k as int])));
                            assert(in_box(seed, seed, placed.dims()));
                            assert forall|c: Cell|
                                grid_cells(grid@).contains(c) == remaining(cells, bricks@).contains(
                                    c,
                                ) by {
                                assert(grid_has(grid@, c) == (grid_has(grid@, c)));
                                assert(rest.contains(c) == remaining(cells, before).contains(c));
                            }
                            assert forall|hh: int| 0 <= hh < self.height implies (
                            #[trigger] grid[hh]).len() == self.length by {}
                        }
                    }
                    w += 1;
                }
                l += 1;
            }
            h += 1;
        }
        proof {
            assert(grid_cells(grid@) =~= Set::<Cell>::empty()) by {
                assert forall|c: Cell| !grid_cells(grid@).contains(c) by {
                    if grid_has(grid@, c) {
                        assert(c.2 >= self.height);
                    }
                }
            }
            lemma_greedy_is_packing(cells, catalog, plan, bricks@);
        }
        let r = Chunk {
            unit_brick: self.unit_brick,
            color: self.color,
            l: self.l,
            w: self.w,
            h: self.h,
            length: self.length,
            width: self.width,
            height: self.height,
            ws_included: self.ws_included,
            bricks,
        };
        proof {
            assert(r.cells() =~= cells);
            self.lemma_volume();
            r.lemma_volume();
        }
        r
    }

    /// The index of the first brick of `sizes` that may be tried in a layer of height
    /// `t` and fits at (l, w, h).
    fn first_fitting(
        l: u8,
        w: u8,
        h: u8,
        sizes: &Vec<VolumeSortedBrick<U, B>>,
        grid: &Vec<Vec<BTreeSet<u8>>>,
        t: u8,
    ) -> (k: usize)
        requires
            usable_sizes(bricks_of(sizes@)),
            grid_has(grid@, (l as int, w as int, h as int)),
        ensures
            first_fit(
                grid_cells(grid@),
                (l as int, w as int, h as int),
                bricks_of(sizes@),
                t as int,
                k as int,
            ),
    {
        let ghost seed = (l as int, w as int, h as int);
        let ghost catalog = bricks_of(sizes@);
        let ghost cells = grid_cells(grid@);
        let mut k: usize = 0;
        loop
            invariant
                k <= sizes.len(),
                seed == (l as int, w as int, h as int),
                catalog == bricks_of(sizes@),
                cells == grid_cells(grid@),
                usable_sizes(catalog),
                grid_has(grid@, seed),
                forall|j: int|
                    0 <= j < k ==> !(eligible(#[trigger] catalog[j], t as int) && box_within(
                        cells,
                        seed,
                        brick_dims(catalog[j]),
                    )),
            ensures
                first_fit(cells, seed, catalog, t as int, k as int),
            decreases sizes.len() - k,
        {
            if k >= sizes.len() {
                proof {
                    let u = choose|u: int| 0 <= u < catalog.len() && (#[trigger] catalog[u]) is Unit;
                    assert(eligible(catalog[u], t as int));
                    assert forall|c: Cell| in_box(c, seed, brick_dims(catalog[u])) implies cells.contains(
                        c,
                    ) by {
                        assert(c == seed);
                    }
                    assert(false);
                }
                break;
            }
            let size = sizes[k];
            assert(positive(brick_dims(catalog[k as int])));
            if size.may_stand_in(t) && fits(l, w, h, size.length(), size.width(), size.height(), grid) {
                break;
            }
            k += 1;
        }
        k
    }
}

} // verus!
