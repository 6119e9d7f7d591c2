//! What it means to fill a set of voxels with bricks, one brick after another.

use vstd::prelude::*;
use crate::brick::{Brick, NonUnitBrick, UnitBrick};
use crate::geometry::{Cell, box_set, box_volume, box_within, lemma_box_len, positive, scans_before};

verus! {

/// A brick at a position inside a chunk.
#[derive(Copy, Clone, Eq, PartialEq, Ord, PartialOrd, Hash, Debug)]
pub struct ChunkPlacedBrick<U, B> {
    pub l: u8,
    pub w: u8,
    pub h: u8,
    pub brick: Brick<U, B>,
}

/// The extents of a brick.
pub open spec fn brick_dims<U: UnitBrick, B: NonUnitBrick<U>>(brick: Brick<U, B>) -> Cell {
    (brick.spec_length() as int, brick.spec_width() as int, brick.spec_height() as int)
}

impl<U: UnitBrick, B: NonUnitBrick<U>> ChunkPlacedBrick<U, B> {
    /// The voxel at the brick's lowest corner.
    pub open spec fn origin(&self) -> Cell {
        (self.l as int, self.w as int, self.h as int)
    }

    /// The brick's extents.
    pub open spec fn dims(&self) -> Cell {
        brick_dims(self.brick)
    }

    /// The voxels that the brick fills.
    pub open spec fn voxels(&self) -> Set<Cell> {
        box_set(self.origin(), self.dims())
    }
}

/// What is left of `cells` once the bricks of `placed` are in place.
pub open spec fn remaining<U: UnitBrick, B: NonUnitBrick<U>>(
    cells: Set<Cell>,
    placed: Seq<ChunkPlacedBrick<U, B>>,
) -> Set<Cell>
    decreases placed.len(),
{
    if placed.len() == 0 {
        cells
    } else {
        remaining(cells, placed.drop_last()).difference(placed.last().voxels())
    }
}

/// Whether each brick of `placed`, in turn, lies wholly in what the bricks before it
/// have left of `cells`. Such bricks lie inside `cells` and do not overlap.
pub open spec fn packing<U: UnitBrick, B: NonUnitBrick<U>>(
    cells: Set<Cell>,
    placed: Seq<ChunkPlacedBrick<U, B>>,
) -> bool
    decreases placed.len(),
{
    placed.len() == 0 || {
        &&& packing(cells, placed.drop_last())
        &&& positive(placed.last().dims())
        &&& box_within(
            remaining(cells, placed.drop_last()),
            placed.last().origin(),
            placed.last().dims(),
        )
    }
}

/// Whether the bricks of `placed` fill `cells` exactly: a packing that leaves nothing.
pub open spec fn fills<U: UnitBrick, B: NonUnitBrick<U>>(
    cells: Set<Cell>,
    placed: Seq<ChunkPlacedBrick<U, B>>,
) -> bool {
    packing(cells, placed) && remaining(cells, placed) =~= Set::<Cell>::empty()
}

/// Whether `seed` is the voxel of `cells` that is scanned first.
pub open spec fn is_seed(cells: Set<Cell>, seed: Cell) -> bool {
    cells.contains(seed) && forall|c: Cell| cells.contains(c) ==> !scans_before(c, seed)
}

/// Whether a brick may be tried in a layer of height `t`: one that is as tall as the
/// layer, or the unit brick, which fills what no other brick fits.
pub open spec fn eligible<U: UnitBrick, B: NonUnitBrick<U>>(brick: Brick<U, B>, t: int) -> bool {
    brick.spec_height() as int == t || brick is Unit
}

/// Whether one of `sizes` is `t` high.
pub open spec fn has_height<U: UnitBrick, B: NonUnitBrick<U>>(sizes: Seq<Brick<U, B>>, t: int) -> bool {
    exists|k: int| 0 <= k < sizes.len() && (#[trigger] sizes[k]).spec_height() as int == t
}

/// One layer of height `t`, height by height: `t` where it begins, 0 above.
pub open spec fn one_layer(t: int) -> Seq<int> {
    Seq::new(
        t as nat,
        |i: int|
            if i == 0 {
                t
            } else {
                0
            },
    )
}

/// The layers that cover `rest` heights with the heights of `sizes` that are at most
/// `t`: as many layers of the tallest such height as go into `rest`, then the next
/// height for what is left of it, and layers of height 1 in the end. The result says
/// for each height which layer begins there: its height, or 0 where none begins.
pub open spec fn layer_starts<U: UnitBrick, B: NonUnitBrick<U>>(
    sizes: Seq<Brick<U, B>>,
    rest: int,
    t: int,
) -> Seq<int>
    decreases t, rest,
{
    if rest <= 0 {
        Seq::empty()
    } else if t <= 1 {
        Seq::new(rest as nat, |i: int| 1int)
    } else if rest >= t && has_height(sizes, t) {
        one_layer(t) + layer_starts(sizes, rest - t, t)
    } else {
        layer_starts(sizes, rest, t - 1)
    }
}

/// The layers of a chunk that is `height` high, the tallest bricks first.
pub open spec fn layers<U: UnitBrick, B: NonUnitBrick<U>>(
    sizes: Seq<Brick<U, B>>,
    height: int,
) -> Seq<int> {
    layer_starts(sizes, height, 255)
}

/// Whether `sizes[k]` is the first of `sizes` that may be tried in a layer of height
/// `t` and, put at `seed`, lies wholly in `cells`.
pub open spec fn first_fit<U: UnitBrick, B: NonUnitBrick<U>>(
    cells: Set<Cell>,
    seed: Cell,
    sizes: Seq<Brick<U, B>>,
    t: int,
    k: int,
) -> bool {
    &&& 0 <= k < sizes.len()
    &&& eligible(sizes[k], t)
    &&& box_within(cells, seed, brick_dims(sizes[k]))
    &&& forall|j: int|
        0 <= j < k ==> !(eligible(#[trigger] sizes[j], t) && box_within(
            cells,
            seed,
            brick_dims(sizes[j]),
        ))
}

/// Whether `placed` is what the greedy rule gives: each brick sits at the voxel that is
/// scanned first among those left by the bricks before it, and is the first of `sizes`
/// that fits there. Where a layer begins at that voxel's height (`starts` gives the
/// layer's height there), the bricks as tall as the layer are tried, and the unit
/// brick; inside a layer only the unit brick.
pub open spec fn greedy<U: UnitBrick, B: NonUnitBrick<U>>(
    cells: Set<Cell>,
    sizes: Seq<Brick<U, B>>,
    starts: Seq<int>,
    placed: Seq<ChunkPlacedBrick<U, B>>,
) -> bool
    decreases placed.len(),
{
    placed.len() == 0 || {
        let rest = remaining(cells, placed.drop_last());
        let last = placed.last();
        &&& greedy(cells, sizes, starts, placed.drop_last())
        &&& is_seed(rest, last.origin())
        &&& 0 <= last.origin().2 < starts.len()
        &&& exists|k: int| #[trigger]
            first_fit(rest, last.origin(), sizes, starts[last.origin().2], k) && last.brick
                == sizes[k]
    }
}

/// Whether every brick of `sizes` has positive extents and one of them is the unit
/// brick.
pub open spec fn usable_sizes<U: UnitBrick, B: NonUnitBrick<U>>(sizes: Seq<Brick<U, B>>) -> bool {
    &&& forall|k: int| 0 <= k < sizes.len() ==> positive(brick_dims(#[trigger] sizes[k]))
    &&& exists|k: int| 0 <= k < sizes.len() && (#[trigger] sizes[k]) is Unit
}

/// The layers cover the heights they were made for, one entry for each.
pub proof fn lemma_layer_starts_len<U: UnitBrick, B: NonUnitBrick<U>>(
    sizes: Seq<Brick<U, B>>,
    rest: int,
    t: int,
)
    requires
        0 <= rest,
    ensures
        layer_starts(sizes, rest, t).len() == rest,
    decreases t, rest,
{
    if rest <= 0 {
    } else if t <= 1 {
    } else if rest >= t && has_height(sizes, t) {
        lemma_layer_starts_len(sizes, rest - t, t);
    } else {
        lemma_layer_starts_len(sizes, rest, t - 1);
    }
}

/// A greedy placement of bricks with positive extents is a packing.
pub proof fn lemma_greedy_is_packing<U: UnitBrick, B: NonUnitBrick<U>>(
    cells: Set<Cell>,
    sizes: Seq<Brick<U, B>>,
    starts: Seq<int>,
    placed: Seq<ChunkPlacedBrick<U, B>>,
)
    requires
        greedy(cells, sizes, starts, placed),
        forall|k: int| 0 <= k < sizes.len() ==> positive(brick_dims(#[trigger] sizes[k])),
    ensures
        packing(cells, placed),
    decreases placed.len(),
{
    if placed.len() > 0 {
        lemma_greedy_is_packing(cells, sizes, starts, placed.drop_last());
        let rest = remaining(cells, placed.drop_last());
        let last = placed.last();
        let k = choose|k: int| #[trigger]
            first_fit(rest, last.origin(), sizes, starts[last.origin().2], k) && last.brick
                == sizes[k];
        assert(positive(brick_dims(sizes[k])));
    }
}

/// What is left of `cells` is part of `cells`.
pub proof fn lemma_remaining_within<U: UnitBrick, B: NonUnitBrick<U>>(
    cells: Set<Cell>,
    placed: Seq<ChunkPlacedBrick<U, B>>,
)
    ensures
        remaining(cells, placed).subset_of(cells),
    decreases placed.len(),
{
    if placed.len() > 0 {
        lemma_remaining_within(cells, placed.drop_last());
    }
}

/// Every brick of a packing lies wholly in `cells` and has positive extents.
pub proof fn lemma_packing_within<U: UnitBrick, B: NonUnitBrick<U>>(
    cells: Set<Cell>,
    placed: Seq<ChunkPlacedBrick<U, B>>,
    i: int,
)
    requires
        packing(cells, placed),
        0 <= i < placed.len(),
    ensures
        positive(placed[i].dims()),
        box_within(cells, placed[i].origin(), placed[i].dims()),
    decreases placed.len(),
{
    if i == placed.len() - 1 {
        lemma_remaining_within(cells, placed.drop_last());
    } else {
        lemma_packing_within(cells, placed.drop_last(), i);
    }
}

/// The number of bricks of `placed` that fill voxel `c`.
pub open spec fn count_boxes<U: UnitBrick, B: NonUnitBrick<U>>(
    placed: Seq<ChunkPlacedBrick<U, B>>,
    c: Cell,
) -> nat
    decreases placed.len(),
{
    if placed.len() == 0 {
        0
    } else {
        count_boxes(placed.drop_last(), c) + (if placed.last().voxels().contains(c) {
            1nat
        } else {
            0nat
        })
    }
}

/// In a packing, a voxel of `cells` is either left over or filled by exactly one brick,
/// and no other voxel is filled.
pub proof fn lemma_packing_count<U: UnitBrick, B: NonUnitBrick<U>>(
    cells: Set<Cell>,
    placed: Seq<ChunkPlacedBrick<U, B>>,
    c: Cell,
)
    requires
        packing(cells, placed),
    ensures
        count_boxes(placed, c) + (if remaining(cells, placed).contains(c) {
            1nat
        } else {
            0nat
        }) == (if cells.contains(c) {
            1nat
        } else {
            0nat
        }),
    decreases placed.len(),
{
    if placed.len() > 0 {
        lemma_packing_count(cells, placed.drop_last(), c);
        lemma_remaining_within(cells, placed.drop_last());
        let last = placed.last();
        if last.voxels().contains(c) {
            assert(crate::geometry::in_box(c, last.origin(), last.dims()));
        }
    }
}

/// Bricks that fill `cells` exactly fill each voxel of `cells` once and no other voxel.
pub proof fn lemma_fills_count<U: UnitBrick, B: NonUnitBrick<U>>(
    cells: Set<Cell>,
    placed: Seq<ChunkPlacedBrick<U, B>>,
    c: Cell,
)
    requires
        fills(cells, placed),
    ensures
        count_boxes(placed, c) == (if cells.contains(c) {
            1nat
        } else {
            0nat
        }),
{
    lemma_packing_count(cells, placed, c);
}

/// The number of voxels that the bricks fill, a voxel counted once for each brick that
/// fills it.
pub open spec fn volume_sum<U: UnitBrick, B: NonUnitBrick<U>>(
    placed: Seq<ChunkPlacedBrick<U, B>>,
) -> nat
    decreases placed.len(),
{
    if placed.len() == 0 {
        0
    } else {
        volume_sum(placed.drop_last()) + placed.last().brick.volume()
    }
}

/// The bricks of a packing fill as many voxels as they take from `cells`.
pub proof fn lemma_packing_volume<U: UnitBrick, B: NonUnitBrick<U>>(
    cells: Set<Cell>,
    placed: Seq<ChunkPlacedBrick<U, B>>,
)
    requires
        packing(cells, placed),
        cells.finite(),
    ensures
        remaining(cells, placed).finite(),
        volume_sum(placed) + remaining(cells, placed).len() == cells.len(),
    decreases placed.len(),
{
    if placed.len() > 0 {
        let shorter = placed.drop_last();
        let last = placed.last();
        lemma_packing_volume(cells, shorter);
        let before = remaining(cells, shorter);
        let after = remaining(cells, placed);
        let taken = last.voxels();
        lemma_box_len(last.origin(), last.dims());
        assert(before =~= after + taken) by {
            assert forall|c: Cell| before.contains(c) == (after + taken).contains(c) by {
                if taken.contains(c) {
                    assert(crate::geometry::in_box(c, last.origin(), last.dims()));
                }
            }
        }
        assert(after.disjoint(taken));
        assert(after.subset_of(before));
        vstd::set_lib::lemma_len_subset(after, before);
        vstd::set_lib::lemma_set_disjoint_lens(after, taken);
        assert(last.brick.volume() == box_volume(last.dims()));
    }
}

/// Bricks that fill `cells` exactly fill as many voxels as `cells` holds.
pub proof fn lemma_fills_volume<U: UnitBrick, B: NonUnitBrick<U>>(
    cells: Set<Cell>,
    placed: Seq<ChunkPlacedBrick<U, B>>,
)
    requires
        fills(cells, placed),
        cells.finite(),
    ensures
        volume_sum(placed) == cells.len(),
{
    lemma_packing_volume(cells, placed);
}

/// Every brick that the greedy rule places is one of the bricks that were tried.
pub proof fn lemma_greedy_members<U: UnitBrick, B: NonUnitBrick<U>>(
    cells: Set<Cell>,
    sizes: Seq<Brick<U, B>>,
    starts: Seq<int>,
    placed: Seq<ChunkPlacedBrick<U, B>>,
    i: int,
)
    requires
        greedy(cells, sizes, starts, placed),
        0 <= i < placed.len(),
    ensures
        sizes.contains(placed[i].brick),
    decreases placed.len(),
{
    if i == placed.len() - 1 {
        let rest = remaining(cells, placed.drop_last());
        let last = placed.last();
        let k = choose|k: int| #[trigger]
            first_fit(rest, last.origin(), sizes, starts[last.origin().2], k) && last.brick
                == sizes[k];
        assert(sizes[k] == last.brick);
    } else {
        lemma_greedy_members(cells, sizes, starts, placed.drop_last(), i);
    }
}

/// Every brick that the greedy rule places is the unit brick or stands where a layer of
/// its own height begins.
pub proof fn bricks_stand_on_layers<U: UnitBrick, B: NonUnitBrick<U>>(
    cells: Set<Cell>,
    sizes: Seq<Brick<U, B>>,
    starts: Seq<int>,
    placed: Seq<ChunkPlacedBrick<U, B>>,
    i: int,
)
    requires
        greedy(cells, sizes, starts, placed),
        0 <= i < placed.len(),
    ensures
        0 <= placed[i].origin().2 < starts.len(),
        eligible(placed[i].brick, starts[placed[i].origin().2]),
    decreases placed.len(),
{
    if i == placed.len() - 1 {
        let rest = remaining(cells, placed.drop_last());
        let last = placed.last();
        let k = choose|k: int| #[trigger]
            first_fit(rest, last.origin(), sizes, starts[last.origin().2], k) && last.brick
                == sizes[k];
        assert(sizes[k] == last.brick);
    } else {
        bricks_stand_on_layers(cells, sizes, starts, placed.drop_last(), i);
    }
}

} // verus!
