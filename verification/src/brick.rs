//! Bricks: unit bricks, larger shapes, and bricks placed in space.

use vstd::prelude::*;

verus! {

/// The identity of a 1x1x1 brick.
pub trait UnitBrick: Copy + Eq + Ord {}

impl<T: Copy + Eq + Ord> UnitBrick for T {}

/// A brick shape of a catalog, tagged with the unit brick it is compatible with.
///
/// Each executable method returns what the spec function of the same name says;
/// verified code relies on this for every implementation.
pub trait NonUnitBrick<U>: Copy + Eq {
    spec fn spec_length(&self) -> u8;

    spec fn spec_width(&self) -> u8;

    spec fn spec_height(&self) -> u8;

    spec fn spec_unit_brick(&self) -> U;

    spec fn spec_rotate_90(&self) -> Self;

    spec fn spec_is_rotation_of(&self, other: &Self) -> bool;

    /// Whether `is_rotation_of` returns what `spec_is_rotation_of` says. This can depend
    /// on how `==` behaves for the parts of a shape.
    spec fn obeys_rotation_spec() -> bool;

    fn length(&self) -> (r: u8)
        ensures
            r == self.spec_length(),
    ;

    fn width(&self) -> (r: u8)
        ensures
            r == self.spec_width(),
    ;

    fn height(&self) -> (r: u8)
        ensures
            r == self.spec_height(),
    ;

    fn unit_brick(&self) -> (r: U)
        ensures
            r == self.spec_unit_brick(),
    ;

    /// The shape turned by a quarter: length and width are swapped, height and unit
    /// brick stay.
    fn rotate_90(&self) -> (r: Self)
        ensures
            r == self.spec_rotate_90(),
            r.spec_length() == self.spec_width(),
            r.spec_width() == self.spec_length(),
            r.spec_height() == self.spec_height(),
            r.spec_unit_brick() == self.spec_unit_brick(),
    ;

    fn is_rotation_of(&self, other: &Self) -> (r: bool)
        ensures
            Self::obeys_rotation_spec() ==> r == self.spec_is_rotation_of(other),
    ;
}

/// Either a unit brick or a larger shape.
#[derive(Copy, Clone, Eq, PartialEq, Ord, PartialOrd, Hash, Debug)]
pub enum Brick<U, B> {
    Unit(U),
    NonUnit(B),
}

impl<U: UnitBrick, B: NonUnitBrick<U>> Brick<U, B> {
    pub open spec fn spec_length(&self) -> u8 {
        match self {
            Brick::Unit(_) => 1,
            Brick::NonUnit(brick) => brick.spec_length(),
        }
    }

    pub open spec fn spec_width(&self) -> u8 {
        match self {
            Brick::Unit(_) => 1,
            Brick::NonUnit(brick) => brick.spec_width(),
        }
    }

    pub open spec fn spec_height(&self) -> u8 {
        match self {
            Brick::Unit(_) => 1,
            Brick::NonUnit(brick) => brick.spec_height(),
        }
    }

    pub open spec fn spec_unit_brick(&self) -> U {
        match self {
            Brick::Unit(brick) => *brick,
            Brick::NonUnit(brick) => brick.spec_unit_brick(),
        }
    }

    pub open spec fn spec_rotate_90(&self) -> Self {
        match self {
            Brick::Unit(_) => *self,
            Brick::NonUnit(brick) => Brick::NonUnit(brick.spec_rotate_90()),
        }
    }

    /// The number of voxels the brick fills.
    pub open spec fn volume(&self) -> nat {
        (self.spec_length() as nat) * (self.spec_width() as nat) * (self.spec_height() as nat)
    }

    /// Whether the brick fills exactly one voxel.
    pub open spec fn is_unit_size(&self) -> bool {
        self.spec_length() == 1 && self.spec_width() == 1 && self.spec_height() == 1
    }

    pub fn length(&self) -> (r: u8)
        ensures
            r == self.spec_length(),
    {
        match self {
            Brick::Unit(_) => 1,
            Brick::NonUnit(brick) => brick.length(),
        }
    }

    pub fn width(&self) -> (r: u8)
        ensures
            r == self.spec_width(),
    {
        match self {
            Brick::Unit(_) => 1,
            Brick::NonUnit(brick) => brick.width(),
        }
    }

    pub fn height(&self) -> (r: u8)
        ensures
            r == self.spec_height(),
    {
        match self {
            Brick::Unit(_) => 1,
            Brick::NonUnit(brick) => brick.height(),
        }
    }

    pub fn unit_brick(&self) -> (r: U)
        ensures
            r == self.spec_unit_brick(),
    {
        match self {
            Brick::Unit(brick) => *brick,
            Brick::NonUnit(brick) => brick.unit_brick(),
        }
    }

    pub fn rotate_90(&self) -> (r: Self)
        ensures
            r == self.spec_rotate_90(),
            r.spec_length() == self.spec_width(),
            r.spec_width() == self.spec_length(),
            r.spec_height() == self.spec_height(),
            r.spec_unit_brick() == self.spec_unit_brick(),
    {
        match self {
            Brick::Unit(_) => *self,
            Brick::NonUnit(brick) => Brick::NonUnit(brick.rotate_90()),
        }
    }
}

/// A brick at a position, in a color. It fills the voxels from (l, w, h) up to,
/// not including, (l + length, w + width, h + height).
#[derive(Copy, Clone, Eq, PartialEq, Ord, PartialOrd, Hash, Debug)]
pub struct PlacedBrick<U, B, C> {
    pub l: u32,
    pub w: u32,
    pub h: u32,
    pub brick: Brick<U, B>,
    pub color: C,
}

impl<U: UnitBrick, B: NonUnitBrick<U>, C> PlacedBrick<U, B, C> {
    /// Whether the placed brick fills the voxel (l, w, h).
    pub open spec fn fills(&self, l: int, w: int, h: int) -> bool {
        &&& self.l <= l < self.l + self.brick.spec_length()
        &&& self.w <= w < self.w + self.brick.spec_width()
        &&& self.h <= h < self.h + self.brick.spec_height()
    }
}

/// The number of the placed bricks that fill the voxel (l, w, h).
pub open spec fn count_filling<U: UnitBrick, B: NonUnitBrick<U>, C>(
    placed: Seq<PlacedBrick<U, B, C>>,
    l: int,
    w: int,
    h: int,
) -> nat
    decreases placed.len(),
{
    if placed.len() == 0 {
        0
    } else {
        count_filling(placed.drop_last(), l, w, h) + (if placed.last().fills(l, w, h) {
            1nat
        } else {
            0nat
        })
    }
}

/// The number of voxels that the placed bricks fill, a voxel counted once for each
/// brick that fills it.
pub open spec fn total_volume<U: UnitBrick, B: NonUnitBrick<U>, C>(
    placed: Seq<PlacedBrick<U, B, C>>,
) -> nat
    decreases placed.len(),
{
    if placed.len() == 0 {
        0
    } else {
        total_volume(placed.drop_last()) + placed.last().brick.volume()
    }
}

/// In two lists put together, as many bricks fill a voxel as in the one and in the
/// other.
pub proof fn lemma_count_filling_add<U: UnitBrick, B: NonUnitBrick<U>, C>(
    first: Seq<PlacedBrick<U, B, C>>,
    second: Seq<PlacedBrick<U, B, C>>,
    l: int,
    w: int,
    h: int,
)
    ensures
        count_filling(first + second, l, w, h) == count_filling(first, l, w, h) + count_filling(
            second,
            l,
            w,
            h,
        ),
    decreases second.len(),
{
    if second.len() == 0 {
        assert(first + second =~= first);
    } else {
        assert((first + second).drop_last() =~= first + second.drop_last());
        assert((first + second).last() == second.last());
        lemma_count_filling_add(first, second.drop_last(), l, w, h);
    }
}

/// Two lists put together fill as many voxels as the one and the other.
pub proof fn lemma_total_volume_add<U: UnitBrick, B: NonUnitBrick<U>, C>(
    first: Seq<PlacedBrick<U, B, C>>,
    second: Seq<PlacedBrick<U, B, C>>,
)
    ensures
        total_volume(first + second) == total_volume(first) + total_volume(second),
    decreases second.len(),
{
    if second.len() == 0 {
        assert(first + second =~= first);
    } else {
        assert((first + second).drop_last() =~= first + second.drop_last());
        assert((first + second).last() == second.last());
        lemma_total_volume_add(first, second.drop_last());
    }
}

} // verus!
