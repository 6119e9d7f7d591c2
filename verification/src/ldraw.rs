//! Bricks and colors as the LDraw format names them.

use vstd::prelude::*;
use vstd::std_specs::cmp::{PartialEqSpec, PartialEqSpecImpl};
use vstd::std_specs::convert::FromSpecImpl;
use crate::brick::{Brick, NonUnitBrick, PlacedBrick, UnitBrick};
use crate::color::Srgba;

verus! {

/// A brick shape with the identifier of its LDraw part.
#[derive(Clone, Copy, Debug)]
pub struct LdrawBrick<I, U> {
    pub id: I,
    pub length: u8,
    pub width: u8,
    pub height: u8,
    pub unit_brick: U,
    pub rotated: bool,
}

impl<I: Copy + Eq, U: UnitBrick> Eq for LdrawBrick<I, U> {

}

impl<I: Copy + Eq, U: UnitBrick> PartialEq for LdrawBrick<I, U> {
    fn eq(&self, other: &Self) -> (r: bool) {
        self.id == other.id && self.unit_brick == other.unit_brick && self.rotated == other.rotated
    }
}

impl<I: Copy + Eq, U: UnitBrick> PartialEqSpecImpl for LdrawBrick<I, U> {
    open spec fn obeys_eq_spec() -> bool {
        I::obeys_eq_spec() && U::obeys_eq_spec()
    }

    open spec fn eq_spec(&self, other: &Self) -> bool {
        self.id.eq_spec(&other.id) && self.unit_brick.eq_spec(&other.unit_brick) && self.rotated
            == other.rotated
    }
}

impl<I: Copy + Eq, U: UnitBrick> NonUnitBrick<U> for LdrawBrick<I, U> {
    open spec fn spec_length(&self) -> u8 {
        self.length
    }

    open spec fn spec_width(&self) -> u8 {
        self.width
    }

    open spec fn spec_height(&self) -> u8 {
        self.height
    }

    open spec fn spec_unit_brick(&self) -> U {
        self.unit_brick
    }

    open spec fn spec_rotate_90(&self) -> Self {
        LdrawBrick {
            id: self.id,
            length: self.width,
            width: self.length,
            height: self.height,
            unit_brick: self.unit_brick,
            rotated: !self.rotated,
        }
    }

    /// Two shapes are rotations of each other if they have the same part and the same
    /// unit brick, whether rotated or not.
    open spec fn spec_is_rotation_of(&self, other: &Self) -> bool {
        self.id.eq_spec(&other.id) && self.unit_brick.eq_spec(&other.unit_brick)
    }

    open spec fn obeys_rotation_spec() -> bool {
        I::obeys_eq_spec() && U::obeys_eq_spec()
    }

    fn length(&self) -> (r: u8) {
        self.length
    }

    fn width(&self) -> (r: u8) {
        self.width
    }

    fn height(&self) -> (r: u8) {
        self.height
    }

    fn unit_brick(&self) -> (r: U) {
        self.unit_brick
    }

    fn rotate_90(&self) -> (r: Self) {
        LdrawBrick {
            id: self.id,
            length: self.width,
            width: self.length,
            height: self.height,
            unit_brick: self.unit_brick,
            rotated: !self.rotated,
        }
    }

    fn is_rotation_of(&self, other: &Self) -> (r: bool) {
        self.id == other.id && self.unit_brick == other.unit_brick
    }
}

/// A color with its LDraw code.
#[derive(Copy, Clone, Debug)]
pub struct LdrawColor {
    pub id: u16,
    pub value: Srgba<u8>,
}

impl LdrawColor {
    /// The color with the given code and channels.
    pub fn new(id: u16, red: u8, green: u8, blue: u8, alpha: u8) -> (r: Self)
        ensures
            r.id == id,
            r.value == (Srgba { red, green, blue, alpha }),
    {
        LdrawColor { id, value: Srgba { red, green, blue, alpha } }
    }
}

impl Default for LdrawColor {
    /// Black, the color with code 0.
    fn default() -> (r: Self)
        ensures
            r.id == 0,
            r.value == (Srgba { red: 27u8, green: 42u8, blue: 52u8, alpha: 255u8 }),
    {
        LdrawColor::new(0, 27, 42, 52, 255)
    }
}

impl Eq for LdrawColor {

}

impl PartialEq for LdrawColor {
    fn eq(&self, other: &Self) -> (r: bool) {
        self.id == other.id
    }
}

impl PartialEqSpecImpl for LdrawColor {
    open spec fn obeys_eq_spec() -> bool {
        true
    }

    /// Two colors are equal if they have the same code.
    open spec fn eq_spec(&self, other: &Self) -> bool {
        self.id == other.id
    }
}

impl From<LdrawColor> for Srgba<u8> {
    fn from(color: LdrawColor) -> (r: Self) {
        color.value
    }
}

impl FromSpecImpl<LdrawColor> for Srgba<u8> {
    open spec fn obeys_from_spec() -> bool {
        true
    }

    open spec fn from_spec(color: LdrawColor) -> Self {
        color.value
    }
}

/// Where a part stands in an LDraw model, in LDraw units, and whether it is turned by a
/// quarter about the vertical axis. A stud is 20 units long and wide, a plate 8 units
/// high; x grows with l, z falls as w grows, and y falls as h grows.
#[derive(Copy, Clone, Debug, PartialEq, Eq)]
pub struct SubPartPlace {
    pub color: u16,
    pub x: i64,
    pub y: i64,
    pub z: i64,
    pub rotated: bool,
}

/// Whether the brick is a shape that is turned by a quarter.
pub open spec fn is_rotated<I: Copy + Eq, U: UnitBrick>(brick: Brick<U, LdrawBrick<I, U>>) -> bool {
    match brick {
        Brick::Unit(_) => false,
        Brick::NonUnit(shape) => shape.rotated,
    }
}

/// The place of a placed brick in the LDraw model of a mosaic that is `mosaic_width`
/// wide: the middle of the brick along x and z, and its upper side along y.
pub fn place_sub_part<I: Copy + Eq, U: UnitBrick>(
    placement: &PlacedBrick<U, LdrawBrick<I, U>, LdrawColor>,
    mosaic_width: u32,
) -> (r: SubPartPlace)
    ensures
        r.color == placement.color.id,
        r.x == 20 * placement.l + 10 * placement.brick.spec_length(),
        r.y == -8 * (placement.brick.spec_height() + placement.h),
        r.z == 20 * (mosaic_width - placement.w) - 10 * placement.brick.spec_width(),
        r.rotated == is_rotated(placement.brick),
{
    let length: i64 = placement.brick.length() as i64;
    let width: i64 = placement.brick.width() as i64;
    let height: i64 = placement.brick.height() as i64;
    let rotated = match placement.brick {
        Brick::Unit(_) => false,
        Brick::NonUnit(shape) => shape.rotated,
    };
    SubPartPlace {
        color: placement.color.id,
        x: 20 * (placement.l as i64) + 10 * length,
        y: -8 * (height + placement.h as i64),
        z: 20 * (mosaic_width as i64 - placement.w as i64) - 10 * width,
        rotated,
    }
}

/// The placed brick moved by (l, w, h); `None` if it would leave the range of
/// coordinates.
pub fn moved_by<U: UnitBrick, B: NonUnitBrick<U>, C: Copy>(
    placement: &PlacedBrick<U, B, C>,
    l: u32,
    w: u32,
    h: u32,
) -> (r: Option<PlacedBrick<U, B, C>>)
    ensures
        r is Some <==> placement.l + l <= u32::MAX && placement.w + w <= u32::MAX && placement.h + h
            <= u32::MAX,
        r matches Some(moved) ==> moved.l == placement.l + l && moved.w == placement.w + w
            && moved.h == placement.h + h && moved.brick == placement.brick && moved.color
            == placement.color,
{
    if u32::MAX - placement.l < l || u32::MAX - placement.w < w || u32::MAX - placement.h < h {
        return None;
    }
    Some(
        PlacedBrick {
            l: placement.l + l,
            w: placement.w + w,
            h: placement.h + h,
            brick: placement.brick,
            color: placement.color,
        },
    )
}

} // verus!
