//! Bases: two layers of plates under a mosaic. The upper layer fills the footprint with
//! plates; the lower layer connects the plates of the upper layer.

use vstd::prelude::*;
use std::marker::PhantomData;
use crate::brick::{Brick, NonUnitBrick, PlacedBrick, UnitBrick};
use crate::color::Color;
use crate::geometry::{lemma_step_inside, steps};
use crate::sorting::sort_desc;

verus! {

/// Why a base could not be built.
#[non_exhaustive]
#[derive(Debug, Eq, PartialEq)]
pub enum BaseError<B> {
    NotAOneByOneBrick(B),
    NotATwoByOneBrick(B),
    NotATwoByTwoBrick(B),
    NotAPlate(B),
}

/// A rectangle of the footprint that is filled with copies of one brick, side by side.
#[derive(Copy, Clone)]
pub struct FilledArea<B> {
    pub brick: B,
    pub l: u32,
    pub w: u32,
    pub length: u32,
    pub width: u32,
}

pub fn is_even(n: u32) -> (r: bool)
    ensures
        r == (n % 2 == 0),
{
    n % 2 == 0
}

/// The largest even number that is at most `n`.
pub fn make_even(n: u32) -> (r: u32)
    ensures
        r == n - n % 2,
{
    let r = n & !1u32;
    assert(n & !1u32 == n - n % 2) by (bit_vector);
    r
}

/// `n` less `amount`, or zero if `amount` is larger.
pub fn sub_at_most(n: u32, amount: u32) -> (r: u32)
    ensures
        r == (if amount <= n {
            n - amount
        } else {
            0
        }),
{
    let least = if n < amount {
        n
    } else {
        amount
    };
    n - least
}

/// The area of a brick's footprint.
pub open spec fn footprint<U, B: NonUnitBrick<U>>(brick: B) -> u32 {
    (brick.spec_length() as u32 * brick.spec_width() as u32) as u32
}

/// The footprints of the bricks.
pub open spec fn footprints<U, B: NonUnitBrick<U>>(bricks: Seq<B>) -> Seq<u32> {
    bricks.map_values(|brick: B| footprint::<U, B>(brick))
}

/// Sorts the bricks by their footprint, the largest first; bricks with the same
/// footprint stay in the order they had.
pub fn sort_by_area<U, B: NonUnitBrick<U>>(bricks: &Vec<B>) -> (sorted: Vec<B>)
    ensures
        sorted@ == crate::sorting::sorted_desc(bricks@, footprints::<U, B>(bricks@)),
        sorted@.len() == bricks@.len(),
{
    let mut areas: Vec<u32> = Vec::new();
    let mut i: usize = 0;
    while i < bricks.len()
        invariant
            i <= bricks.len(),
            areas@ == footprints::<U, B>(bricks@.take(i as int)),
        decreases bricks.len() - i,
    {
        let length: u32 = bricks[i].length() as u32;
        let width: u32 = bricks[i].width() as u32;
        assert(length * width <= 255 * 255) by (nonlinear_arith)
            requires
                length <= 255,
                width <= 255,
        ;
        areas.push(length * width);
        proof {
            assert(footprints::<U, B>(bricks@.take(i + 1)) =~= footprints::<U, B>(
                bricks@.take(i as int),
            ).push(footprint::<U, B>(bricks@[i as int])));
        }
        i += 1;
    }
    proof {
        assert(bricks@.take(i as int) =~= bricks@);
    }
    sort_desc(bricks, &areas)
}

/// Whether the brick, with positive extents, is at most `length` long and `width` wide.
pub open spec fn brick_fits<U, B: NonUnitBrick<U>>(brick: B, length: int, width: int) -> bool {
    1 <= brick.spec_length() <= length && 1 <= brick.spec_width() <= width
}

/// The place of the first brick from `from` on that fits a rectangle of `length` by
/// `width`, or the number of bricks if none fits.
pub open spec fn first_fitting<U, B: NonUnitBrick<U>>(
    bricks: Seq<B>,
    from: int,
    length: int,
    width: int,
) -> int
    decreases bricks.len() - from,
{
    if from < 0 || from >= bricks.len() {
        bricks.len() as int
    } else if brick_fits::<U, B>(bricks[from], length, width) {
        from
    } else {
        first_fitting::<U, B>(bricks, from + 1, length, width)
    }
}

/// The areas that fill the rectangle of `length` by `width` at (min_l, min_w): the
/// first brick from `min_index` on that fits fills as much as whole copies of it can,
/// from the corner; what is left below and to the right is filled in the same way by
/// the bricks behind it. Where no brick fits, the rectangle stays empty.
pub open spec fn fill_spec<U, B: NonUnitBrick<U>>(
    min_l: int,
    min_w: int,
    length: int,
    width: int,
    min_index: int,
    bricks: Seq<B>,
) -> Seq<FilledArea<B>>
    decreases bricks.len() - min_index,
{
    let index = first_fitting::<U, B>(bricks, min_index, length, width);
    if min_index < 0 || index >= bricks.len() || index < min_index {
        Seq::empty()
    } else {
        let brick = bricks[index];
        let remaining_length = length % (brick.spec_length() as int);
        let remaining_width = width % (brick.spec_width() as int);
        let filled_length = length - remaining_length;
        let filled_width = width - remaining_width;
        let area = FilledArea {
            brick,
            l: min_l as u32,
            w: min_w as u32,
            length: filled_length as u32,
            width: filled_width as u32,
        };
        let below = if remaining_width > 0 {
            fill_spec::<U, B>(
                min_l,
                min_w + filled_width,
                filled_length,
                remaining_width,
                index + 1,
                bricks,
            )
        } else {
            Seq::empty()
        };
        let right = if remaining_length > 0 {
            fill_spec::<U, B>(
                min_l + filled_length,
                min_w,
                remaining_length,
                width,
                index + 1,
                bricks,
            )
        } else {
            Seq::empty()
        };
        seq![area] + below + right
    }
}

/// Whether the area holds whole copies of its brick, at least one, and lies in the
/// rectangle of `length` by `width` at (min_l, min_w).
pub open spec fn area_in<U, B: NonUnitBrick<U>>(
    area: FilledArea<B>,
    min_l: int,
    min_w: int,
    length: int,
    width: int,
) -> bool {
    &&& 1 <= area.brick.spec_length() <= area.length
    &&& 1 <= area.brick.spec_width() <= area.width
    &&& area.length % (area.brick.spec_length() as u32) == 0
    &&& area.width % (area.brick.spec_width() as u32) == 0
    &&& min_l <= area.l
    &&& min_w <= area.w
    &&& area.l + area.length <= min_l + length
    &&& area.w + area.width <= min_w + width
}

/// The first fitting brick lies at or behind `from`, and no brick between fits.
pub proof fn lemma_first_fitting<U, B: NonUnitBrick<U>>(
    bricks: Seq<B>,
    from: int,
    length: int,
    width: int,
)
    requires
        0 <= from,
    ensures
        from <= first_fitting::<U, B>(bricks, from, length, width) || first_fitting::<U, B>(
            bricks,
            from,
            length,
            width,
        ) == bricks.len(),
        first_fitting::<U, B>(bricks, from, length, width) <= bricks.len(),
        first_fitting::<U, B>(bricks, from, length, width) < bricks.len() ==> brick_fits::<U, B>(
            bricks[first_fitting::<U, B>(bricks, from, length, width)],
            length,
            width,
        ),
    decreases bricks.len() - from,
{
    if from < bricks.len() && !brick_fits::<U, B>(bricks[from], length, width) {
        lemma_first_fitting::<U, B>(bricks, from + 1, length, width);
    }
}

/// Fills the rectangle of `length` by `width` at (min_l, min_w) with the bricks from
/// `min_index` on, trying them in their order.
pub fn fill<U, B: NonUnitBrick<U>>(
    min_l: u32,
    min_w: u32,
    length: u32,
    width: u32,
    min_index: usize,
    bricks: &Vec<B>,
) -> (new_areas: Vec<FilledArea<B>>)
    requires
        min_l + length <= u32::MAX,
        min_w + width <= u32::MAX,
    ensures
        new_areas@ == fill_spec::<U, B>(
            min_l as int,
            min_w as int,
            length as int,
            width as int,
            min_index as int,
            bricks@,
        ),
        forall|i: int|
            0 <= i < new_areas@.len() ==> area_in::<U, B>(
                #[trigger] new_areas@[i],
                min_l as int,
                min_w as int,
                length as int,
                width as int,
            ),
    decreases bricks.len() - min_index,
{
    let mut new_areas: Vec<FilledArea<B>> = Vec::new();
    let mut index: usize = min_index;
    while index < bricks.len() && !(1 <= bricks[index].length() && bricks[index].length() as u32
        <= length && 1 <= bricks[index].width() && bricks[index].width() as u32 <= width)
        invariant
            min_index <= index,
            first_fitting::<U, B>(bricks@, min_index as int, length as int, width as int)
                == first_fitting::<U, B>(bricks@, index as int, length as int, width as int),
        decreases bricks.len() - index,
    {
        index += 1;
    }
    if index >= bricks.len() {
        return new_areas;
    }
    let brick = bricks[index];
    let brick_length: u32 = brick.length() as u32;
    let brick_width: u32 = brick.width() as u32;
    let remaining_length: u32 = length % brick_length;
    let remaining_width: u32 = width % brick_width;
    let filled_length: u32 = length - remaining_length;
    let filled_width: u32 = width - remaining_width;
    let area = FilledArea { brick, l: min_l, w: min_w, length: filled_length, width: filled_width };
    new_areas.push(area);
    proof {
        vstd::arithmetic::div_mod::lemma_fundamental_div_mod(length as int, brick_length as int);
        vstd::arithmetic::div_mod::lemma_fundamental_div_mod(width as int, brick_width as int);
        vstd::arithmetic::div_mod::lemma_mod_multiples_basic(
            length as int / brick_length as int,
            brick_length as int,
        );
        vstd::arithmetic::div_mod::lemma_mod_multiples_basic(
            width as int / brick_width as int,
            brick_width as int,
        );
        assert(filled_length == (brick_length as int) * (length as int / brick_length as int));
        assert(filled_width == (brick_width as int) * (width as int / brick_width as int));
        assert(brick_length * (length as int / brick_length as int) == (length as int
            / brick_length as int) * brick_length) by (nonlinear_arith);
        assert(brick_width * (width as int / brick_width as int) == (width as int
            / brick_width as int) * brick_width) by (nonlinear_arith);
        assert(filled_length >= brick_length) by (nonlinear_arith)
            requires
                filled_length == (brick_length as int) * (length as int / brick_length as int),
                length >= brick_length,
                brick_length >= 1,
                length as int == brick_length * (length as int / brick_length as int)
                    + remaining_length,
                0 <= remaining_length < brick_length,
        ;
        assert(filled_width >= brick_width) by (nonlinear_arith)
            requires
                filled_width == (brick_width as int) * (width as int / brick_width as int),
                width >= brick_width,
                brick_width >= 1,
                width as int == brick_width * (width as int / brick_width as int)
                    + remaining_width,
                0 <= remaining_width < brick_width,
        ;
        assert(area_in::<U, B>(area, min_l as int, min_w as int, length as int, width as int));
    }
    let ghost first = new_areas@;

    // Fill what is left below and to the right with the next bricks
    if remaining_width > 0 {
        let mut areas_below = fill::<U, B>(
            min_l,
            min_w + filled_width,
            filled_length,
            remaining_width,
            index + 1,
            bricks,
        );
        new_areas.append(&mut areas_below);
    }
    let ghost second = new_areas@;
    if remaining_length > 0 {
        let mut areas_right = fill::<U, B>(
            min_l + filled_length,
            min_w,
            remaining_length,
            width,
            index + 1,
            bricks,
        );
        new_areas.append(&mut areas_right);
    }
    proof {
        assert(first =~= seq![area]);
        assert forall|i: int| 0 <= i < new_areas@.len() implies area_in::<U, B>(
            #[trigger] new_areas@[i],
            min_l as int,
            min_w as int,
            length as int,
            width as int,
        ) by {
            if i < first.len() {
                assert(new_areas@[i] == area);
            } else if i < second.len() {
                assert(new_areas@[i] == second[i]);
            }
        }
    }
    new_areas
}

/// Whether the area's brick has positive extents and the area ends below the largest
/// coordinate.
pub open spec fn area_sane<U, B: NonUnitBrick<U>>(area: FilledArea<B>) -> bool {
    &&& 1 <= area.brick.spec_length()
    &&& 1 <= area.brick.spec_width()
    &&& area.l + area.length <= u32::MAX
    &&& area.w + area.width <= u32::MAX
}

/// Whether every area of the list is sane.
pub open spec fn areas_sane<U, B: NonUnitBrick<U>>(areas: Seq<FilledArea<B>>) -> bool {
    forall|i: int| 0 <= i < areas.len() ==> area_sane::<U, B>(#[trigger] areas[i])
}

/// Whether every area of the list holds whole copies of its brick and lies in the
/// footprint of `length` by `width`.
pub open spec fn areas_in<U, B: NonUnitBrick<U>>(
    areas: Seq<FilledArea<B>>,
    length: int,
    width: int,
) -> bool {
    forall|i: int| 0 <= i < areas.len() ==> area_in::<U, B>(#[trigger] areas[i], 0, 0, length, width)
}

/// Adds the areas that fill a rectangle to a list of sane areas.
fn fill_into<U, B: NonUnitBrick<U>>(
    areas: &mut Vec<FilledArea<B>>,
    min_l: u32,
    min_w: u32,
    length: u32,
    width: u32,
    bricks: &Vec<B>,
)
    requires
        min_l + length <= u32::MAX,
        min_w + width <= u32::MAX,
        areas_sane::<U, B>(old(areas)@),
    ensures
        areas_sane::<U, B>(final(areas)@),
        final(areas)@ == old(areas)@ + fill_spec::<U, B>(
            min_l as int,
            min_w as int,
            length as int,
            width as int,
            0,
            bricks@,
        ),
{
    let ghost before = areas@;
    let mut new_areas = fill::<U, B>(min_l, min_w, length, width, 0, bricks);
    let ghost added = new_areas@;
    areas.append(&mut new_areas);
    proof {
        assert forall|i: int| 0 <= i < areas@.len() implies area_sane::<U, B>(
            #[trigger] areas@[i],
        ) by {
            if i < before.len() {
                assert(areas@[i] == before[i]);
            } else {
                assert(areas@[i] == added[i - before.len()]);
                assert(area_in::<U, B>(
                    added[i - before.len()],
                    min_l as int,
                    min_w as int,
                    length as int,
                    width as int,
                ));
            }
        }
    }
}

/// The bricks that are two long and an even number wide, as they are given, each of the
/// bricks that are two wide and an even number long turned by a quarter.
pub open spec fn length_two<U, B: NonUnitBrick<U>>(bricks: Seq<B>) -> Seq<B>
    decreases bricks.len(),
{
    if bricks.len() == 0 {
        Seq::empty()
    } else {
        let before = length_two::<U, B>(bricks.drop_last());
        let brick = bricks.last();
        if brick.spec_length() == 2 && brick.spec_width() % 2 == 0 {
            before.push(brick)
        } else if brick.spec_width() == 2 && brick.spec_length() % 2 == 0 {
            before.push(brick.spec_rotate_90())
        } else {
            before
        }
    }
}

/// The bricks that are two wide and an even number long, as they are given, each of the
/// bricks that are two long and an even number wide turned by a quarter.
pub open spec fn width_two<U, B: NonUnitBrick<U>>(bricks: Seq<B>) -> Seq<B>
    decreases bricks.len(),
{
    if bricks.len() == 0 {
        Seq::empty()
    } else {
        let before = width_two::<U, B>(bricks.drop_last());
        let brick = bricks.last();
        if brick.spec_length() == 2 && brick.spec_width() % 2 == 0 {
            before.push(brick.spec_rotate_90())
        } else if brick.spec_width() == 2 && brick.spec_length() % 2 == 0 {
            before.push(brick)
        } else {
            before
        }
    }
}

/// The bricks that are one long or one wide, as they are given, each followed by itself
/// turned by a quarter.
pub open spec fn rim<U, B: NonUnitBrick<U>>(bricks: Seq<B>) -> Seq<B>
    decreases bricks.len(),
{
    if bricks.len() == 0 {
        Seq::empty()
    } else {
        let before = rim::<U, B>(bricks.drop_last());
        let brick = bricks.last();
        if brick.spec_length() == 1 || brick.spec_width() == 1 {
            before.push(brick).push(brick.spec_rotate_90())
        } else {
            before
        }
    }
}

/// The bricks, the largest footprint first.
pub open spec fn by_area<U, B: NonUnitBrick<U>>(bricks: Seq<B>) -> Seq<B> {
    crate::sorting::sorted_desc(bricks, footprints::<U, B>(bricks))
}

/// `n` less `amount`, or zero if `amount` is larger.
pub open spec fn less(n: int, amount: int) -> int {
    if amount <= n {
        n - amount
    } else {
        0
    }
}

/// The supports that lie across the bricks of an area, from the row at `w` on: one strip
/// of two rows at the lower edge of each row of bricks, `support_length` long.
pub open spec fn across<U, B: NonUnitBrick<U>>(
    area: FilledArea<B>,
    bricks: Seq<B>,
    min_l: int,
    w: int,
    max_w: int,
    support_length: int,
) -> Seq<FilledArea<B>>
    decreases max_w - w,
{
    if w > max_w || area.brick.spec_width() < 1 {
        Seq::empty()
    } else {
        fill_spec::<U, B>(min_l, w, support_length, 2, 0, by_area::<U, B>(width_two::<U, B>(bricks)))
            + (if max_w - w < area.brick.spec_width() {
            Seq::empty()
        } else {
            across::<U, B>(area, bricks, min_l, w + area.brick.spec_width(), max_w, support_length)
        })
    }
}

/// The width of the supports along the bricks of an area: the width of the area, less
/// two where the area lies at the lower edge of the footprint.
pub open spec fn strip_width<B>(area: FilledArea<B>, mosaic_width: int) -> int {
    if mosaic_width - area.width - area.w == 0 {
        less(area.width as int, 2)
    } else {
        area.width as int
    }
}

/// The supports at the column `l`, the last column of a column of bricks of an area: a
/// strip of two columns along the right edge of the bricks, unless the area lies at the
/// right edge of the footprint and has no room for it; and, for bricks longer than two,
/// the strips that lie across the bricks.
pub open spec fn at_column<U, B: NonUnitBrick<U>>(
    area: FilledArea<B>,
    bricks: Seq<B>,
    mosaic_length: int,
    mosaic_width: int,
    l: int,
) -> Seq<FilledArea<B>> {
    let brick_length = area.brick.spec_length() as int;
    let brick_width = area.brick.spec_width() as int;
    let max_l = area.l + area.length - 1;
    let is_rightmost_area = mosaic_length - area.length - area.l == 0;
    let wide = strip_width(area, mosaic_width);
    let along = if !is_rightmost_area || max_l - l >= 2 {
        fill_spec::<U, B>(l, area.w + 1, 2, wide, 0, by_area::<U, B>(length_two::<U, B>(bricks)))
    } else {
        Seq::empty()
    };
    let horizontal_min_l = l - (brick_length - 2);
    let long = l - horizontal_min_l;
    let support_length = if mosaic_length - (horizontal_min_l - 1) - long == 0 {
        less(long, 2)
    } else {
        long
    };
    along + (if brick_length > 2 {
        across::<U, B>(
            area,
            bricks,
            horizontal_min_l,
            area.w + brick_width - 1,
            area.w + less(wide, 1),
            support_length,
        )
    } else {
        Seq::empty()
    })
}

/// The supports under the bricks of an area, from the column `l` on.
pub open spec fn under<U, B: NonUnitBrick<U>>(
    area: FilledArea<B>,
    bricks: Seq<B>,
    mosaic_length: int,
    mosaic_width: int,
    l: int,
) -> Seq<FilledArea<B>>
    decreases area.l + area.length - 1 - l,
{
    let max_l = area.l + area.length - 1;
    if l > max_l || area.brick.spec_length() < 1 {
        Seq::empty()
    } else {
        at_column::<U, B>(area, bricks, mosaic_length, mosaic_width, l) + (if max_l - l
            < area.brick.spec_length() {
            Seq::empty()
        } else {
            under::<U, B>(area, bricks, mosaic_length, mosaic_width, l + area.brick.spec_length())
        })
    }
}

/// The supports along the rim of the footprint, where an area lies at the rim: strips
/// one wide along the left and the upper edge, and along the right and the lower edge
/// where the footprint is even there; no two strips meet in a corner.
pub open spec fn along_rim<U, B: NonUnitBrick<U>>(
    area: FilledArea<B>,
    bricks: Seq<B>,
    mosaic_length: int,
    mosaic_width: int,
) -> Seq<FilledArea<B>> {
    let border = by_area::<U, B>(rim::<U, B>(bricks));
    let left = area.l == 0;
    let top = area.w == 0;
    let right = mosaic_length % 2 == 0 && mosaic_length - area.length - area.l == 0;
    let bottom = mosaic_width % 2 == 0 && mosaic_width - area.width - area.w == 0;
    let indent = if left {
        1int
    } else {
        0int
    };
    let drop = if top {
        1int
    } else {
        0int
    };
    let cut = if right {
        1int
    } else {
        0int
    };
    (if left {
        fill_spec::<U, B>(area.l as int, area.w as int, 1, area.width as int, 0, border)
    } else {
        Seq::empty()
    }) + (if top {
        fill_spec::<U, B>(area.l + indent, area.w as int, area.length - indent, 1, 0, border)
    } else {
        Seq::empty()
    }) + (if right {
        fill_spec::<U, B>(area.l + area.length - 1, area.w + drop, 1, area.width - drop, 0, border)
    } else {
        Seq::empty()
    }) + (if bottom {
        fill_spec::<U, B>(
            area.l + indent,
            area.w + area.width - 1,
            area.length - indent - cut,
            1,
            0,
            border,
        )
    } else {
        Seq::empty()
    })
}

/// The supports under one area of the upper layer.
pub open spec fn area_supports<U, B: NonUnitBrick<U>>(
    area: FilledArea<B>,
    bricks: Seq<B>,
    mosaic_length: int,
    mosaic_width: int,
) -> Seq<FilledArea<B>> {
    under::<U, B>(
        area,
        bricks,
        mosaic_length,
        mosaic_width,
        area.l + area.brick.spec_length() - 1,
    ) + along_rim::<U, B>(area, bricks, mosaic_length, mosaic_width)
}

impl<B: Copy> FilledArea<B> {
    /// The bricks that are two long and an even number wide, and those that are two wide
    /// and an even number long, each list with the other's bricks rotated, the largest
    /// footprint first.
    fn filter_bricks<U>(bricks: &Vec<B>) -> (r: (Vec<B>, Vec<B>)) where B: NonUnitBrick<U>
        ensures
            r.0@ == by_area::<U, B>(length_two::<U, B>(bricks@)),
            r.1@ == by_area::<U, B>(width_two::<U, B>(bricks@)),
    {
        let mut length_two_bricks: Vec<B> = Vec::new();
        let mut width_two_bricks: Vec<B> = Vec::new();
        let mut i: usize = 0;
        proof {
            assert(length_two_bricks@ =~= length_two::<U, B>(bricks@.take(0)));
            assert(width_two_bricks@ =~= width_two::<U, B>(bricks@.take(0)));
        }
        while i < bricks.len()
            invariant
                i <= bricks.len(),
                length_two_bricks@ == length_two::<U, B>(bricks@.take(i as int)),
                width_two_bricks@ == width_two::<U, B>(bricks@.take(i as int)),
            decreases bricks.len() - i,
        {
            let brick = bricks[i];
            proof {
                assert(bricks@.take(i + 1).drop_last() =~= bricks@.take(i as int));
                assert(bricks@.take(i + 1).last() == brick);
            }
            if brick.length() == 2 && is_even(brick.width() as u32) {
                length_two_bricks.push(brick);
                width_two_bricks.push(brick.rotate_90());
            } else if brick.width() == 2 && is_even(brick.length() as u32) {
                length_two_bricks.push(brick.rotate_90());
                width_two_bricks.push(brick);
            }
            i += 1;
        }
        proof {
            assert(bricks@.take(i as int) =~= bricks@);
        }
        let length_two_bricks = sort_by_area::<U, B>(&length_two_bricks);
        let width_two_bricks = sort_by_area::<U, B>(&width_two_bricks);
        (length_two_bricks, width_two_bricks)
    }

    /// The bricks that are one long or one wide, each followed by itself rotated, the
    /// largest footprint first.
    fn border_bricks<U>(bricks: &Vec<B>) -> (r: Vec<B>) where B: NonUnitBrick<U>
        ensures
            r@ == by_area::<U, B>(rim::<U, B>(bricks@)),
    {
        let mut border_bricks: Vec<B> = Vec::new();
        let mut i: usize = 0;
        proof {
            assert(border_bricks@ =~= rim::<U, B>(bricks@.take(0)));
        }
        while i < bricks.len()
            invariant
                i <= bricks.len(),
                border_bricks@ == rim::<U, B>(bricks@.take(i as int)),
            decreases bricks.len() - i,
        {
            let brick = bricks[i];
            proof {
                assert(bricks@.take(i + 1).drop_last() =~= bricks@.take(i as int));
                assert(bricks@.take(i + 1).last() == brick);
            }
            if brick.length() == 1 || brick.width() == 1 {
                border_bricks.push(brick);
                border_bricks.push(brick.rotate_90());
            }
            i += 1;
        }
        proof {
            assert(bricks@.take(i as int) =~= bricks@);
        }
        sort_by_area::<U, B>(&border_bricks)
    }

    /// Adds the supports that lie across the bricks of the area, from the row at `min_w`
    /// on.
    fn add_across<U>(
        &self,
        supports: &mut Vec<FilledArea<B>>,
        width_two_bricks: &Vec<B>,
        horizontal_min_l: u32,
        min_w: u32,
        max_w: u32,
        support_length: u32,
        Ghost(bricks): Ghost<Seq<B>>,
    ) where B: NonUnitBrick<U>
        requires
            self.brick.spec_width() >= 1,
            horizontal_min_l + support_length <= u32::MAX,
            max_w <= u32::MAX - 2,
            width_two_bricks@ == by_area::<U, B>(width_two::<U, B>(bricks)),
            areas_sane::<U, B>(old(supports)@),
        ensures
            areas_sane::<U, B>(final(supports)@),
            final(supports)@ == old(supports)@ + across::<U, B>(
                *self,
                bricks,
                horizontal_min_l as int,
                min_w as int,
                max_w as int,
                support_length as int,
            ),
    {
        let brick_width: u32 = self.brick.width() as u32;
        let ghost whole = old(supports)@ + across::<U, B>(
            *self,
            bricks,
            horizontal_min_l as int,
            min_w as int,
            max_w as int,
            support_length as int,
        );
        let mut w: u32 = min_w;
        let mut more_rows = w <= max_w;
        proof {
            assert(supports@ + Seq::<FilledArea<B>>::empty() =~= supports@);
        }
        while more_rows
            invariant
                brick_width == self.brick.spec_width(),
                brick_width >= 1,
                horizontal_min_l + support_length <= u32::MAX,
                max_w <= u32::MAX - 2,
                more_rows ==> w <= max_w,
                width_two_bricks@ == by_area::<U, B>(width_two::<U, B>(bricks)),
                areas_sane::<U, B>(supports@),
                whole == supports@ + (if more_rows {
                    across::<U, B>(
                        *self,
                        bricks,
                        horizontal_min_l as int,
                        w as int,
                        max_w as int,
                        support_length as int,
                    )
                } else {
                    Seq::empty()
                }),
            decreases
                    (if more_rows {
                        max_w + 1 - w
                    } else {
                        0
                    }),
        {
            let ghost so_far = supports@;
            let ghost rest = across::<U, B>(
                *self,
                bricks,
                horizontal_min_l as int,
                w as int,
                max_w as int,
                support_length as int,
            );
            fill_into::<U, B>(supports, horizontal_min_l, w, support_length, 2, width_two_bricks);
            if max_w - w < brick_width {
                more_rows = false;
            } else {
                w += brick_width;
            }
            proof {
                let next = if more_rows {
                    across::<U, B>(
                        *self,
                        bricks,
                        horizontal_min_l as int,
                        w as int,
                        max_w as int,
                        support_length as int,
                    )
                } else {
                    Seq::empty()
                };
                assert(so_far + rest =~= supports@ + next);
            }
        }
        proof {
            assert(supports@ + Seq::<FilledArea<B>>::empty() =~= supports@);
        }
    }

    /// Adds the supports at the column `l`, the last column of a column of bricks of the
    /// area.
    fn add_column<U>(
        &self,
        supports: &mut Vec<FilledArea<B>>,
        length_two_bricks: &Vec<B>,
        width_two_bricks: &Vec<B>,
        mosaic_length: u32,
        mosaic_width: u32,
        l: u32,
        Ghost(bricks): Ghost<Seq<B>>,
    ) where B: NonUnitBrick<U>
        requires
            area_in::<U, B>(*self, 0, 0, mosaic_length as int, mosaic_width as int),
            mosaic_length <= u32::MAX - 2,
            mosaic_width <= u32::MAX - 2,
            self.l + self.brick.spec_length() - 1 <= l <= self.l + self.length - 1,
            length_two_bricks@ == by_area::<U, B>(length_two::<U, B>(bricks)),
            width_two_bricks@ == by_area::<U, B>(width_two::<U, B>(bricks)),
            areas_sane::<U, B>(old(supports)@),
        ensures
            areas_sane::<U, B>(final(supports)@),
            final(supports)@ == old(supports)@ + at_column::<U, B>(
                *self,
                bricks,
                mosaic_length as int,
                mosaic_width as int,
                l as int,
            ),
    {
        let ghost before = supports@;
        let is_rightmost_area = mosaic_length - self.length - self.l == 0;
        let is_bottommost_area = mosaic_width - self.width - self.w == 0;
        let brick_length: u32 = self.brick.length() as u32;
        let brick_width: u32 = self.brick.width() as u32;

        /* Supports should extend one stud beyond the bottom and right sides of this
           area to connect to other area(s), unless there are no more areas below or
           to the right. */
        let mut support_width: u32 = self.width;
        if is_bottommost_area {
            support_width = sub_at_most(support_width, 2);
        }
        let min_w: u32 = self.w + brick_width - 1;
        let max_l: u32 = self.l + self.length - 1;
        let max_w: u32 = self.w + sub_at_most(support_width, 1);

        /* If this area is the rightmost, it will not connect to any area to its right,
           so skip the vertical support to prevent it from sticking outside the base's
           bounds and leave room for the border. */
        if !is_rightmost_area || max_l - l >= 2 {
            fill_into::<U, B>(supports, l, self.w + 1, 2, support_width, length_two_bricks);
        }
        let ghost with_along = supports@;

        /* Add horizontal supports between vertical supports without overlap.
           If the brick length is 2 or less, there will be no space between
           vertical supports, so skip generation of horizontal supports. */
        if brick_length > 2 {
            /* horizontal_min_l is at the second l from the left side of the brick.
               l is at the last l inside the brick, so compute the horizontal_min_l
               by moving l brick_length - 2 points to the left. */
            let horizontal_min_l: u32 = l - (brick_length - 2);

            // horizontal_min_l - 1 == first l from the left side of the brick
            let mut support_length: u32 = l - horizontal_min_l;
            let is_rightmost_support = mosaic_length - (horizontal_min_l - 1) - support_length == 0;
            if is_rightmost_support {
                support_length = sub_at_most(support_length, 2);
            }
            self.add_across::<U>(
                supports,
                width_two_bricks,
                horizontal_min_l,
                min_w,
                max_w,
                support_length,
                Ghost(bricks),
            );
        }
        proof {
            assert(supports@ =~= before + at_column::<U, B>(
                *self,
                bricks,
                mosaic_length as int,
                mosaic_width as int,
                l as int,
            ));
        }
    }

    /// Adds the supports along the rim of the footprint, where the area lies at the rim.
    fn add_rim<U>(
        &self,
        supports: &mut Vec<FilledArea<B>>,
        border_bricks: &Vec<B>,
        mosaic_length: u32,
        mosaic_width: u32,
        Ghost(bricks): Ghost<Seq<B>>,
    ) where B: NonUnitBrick<U>
        requires
            area_in::<U, B>(*self, 0, 0, mosaic_length as int, mosaic_width as int),
            mosaic_length <= u32::MAX - 2,
            mosaic_width <= u32::MAX - 2,
            border_bricks@ == by_area::<U, B>(rim::<U, B>(bricks)),
            areas_sane::<U, B>(old(supports)@),
        ensures
            areas_sane::<U, B>(final(supports)@),
            final(supports)@ == old(supports)@ + along_rim::<U, B>(
                *self,
                bricks,
                mosaic_length as int,
                mosaic_width as int,
            ),
    {
        let ghost before = supports@;
        let is_leftmost_area = self.l == 0;
        let is_topmost_area = self.w == 0;
        let is_rightmost_area = mosaic_length - self.length - self.l == 0;
        let is_bottommost_area = mosaic_width - self.width - self.w == 0;
        let needs_left_border = is_leftmost_area;
        let needs_top_border = is_topmost_area;
        let needs_right_border = is_even(mosaic_length) && is_rightmost_area;
        let needs_bottom_border = is_even(mosaic_width) && is_bottommost_area;
        if needs_left_border {
            fill_into::<U, B>(supports, self.l, self.w, 1, self.width, border_bricks);
        }
        if needs_top_border {
            // Avoid putting two bricks in the top left corner
            let mut l: u32 = self.l;
            let mut border_length: u32 = self.length;
            if needs_left_border {
                l += 1;
                border_length -= 1;
            }
            fill_into::<U, B>(supports, l, self.w, border_length, 1, border_bricks);
        }
        if needs_right_border {
            // Avoid putting two bricks in the top right corner
            let mut w: u32 = self.w;
            let mut border_width: u32 = self.width;
            if needs_top_border {
                w += 1;
                border_width -= 1;
            }
            fill_into::<U, B>(
                supports,
                self.l + self.length - 1,
                w,
                1,
                border_width,
                border_bricks,
            );
        }
        if needs_bottom_border {
            // Avoid putting two bricks in the bottom left corner
            let mut l: u32 = self.l;
            let mut border_length: u32 = self.length;
            if needs_left_border {
                l += 1;
                border_length -= 1;
            }
            // Avoid putting two bricks in the bottom right corner

            if needs_right_border {
                border_length -= 1;
            }
            fill_into::<U, B>(
                supports,
                l,
                self.w + self.width - 1,
                border_length,
                1,
                border_bricks,
            );
        }
        proof {
            assert(supports@ =~= before + along_rim::<U, B>(
                *self,
                bricks,
                mosaic_length as int,
                mosaic_width as int,
            ));
        }
    }

    /// The supports under this area of the upper layer: plates that reach from each of
    /// its bricks to the next, and plates along the rim of the footprint.
    fn build_supports<U>(&self, bricks: &Vec<B>, mosaic_length: u32, mosaic_width: u32) -> (supports:
        Vec<FilledArea<B>>) where B: NonUnitBrick<U>
        requires
            area_in::<U, B>(*self, 0, 0, mosaic_length as int, mosaic_width as int),
            mosaic_length <= u32::MAX - 2,
            mosaic_width <= u32::MAX - 2,
        ensures
            areas_sane::<U, B>(supports@),
            supports@ == area_supports::<U, B>(
                *self,
                bricks@,
                mosaic_length as int,
                mosaic_width as int,
            ),
    {
        let (length_two_bricks, width_two_bricks) = FilledArea::<B>::filter_bricks::<U>(bricks);
        let brick_length: u32 = self.brick.length() as u32;
        let min_l: u32 = self.l + brick_length - 1;
        let max_l: u32 = self.l + self.length - 1;
        let mut supports: Vec<FilledArea<B>> = Vec::new();
        let ghost whole = under::<U, B>(
            *self,
            bricks@,
            mosaic_length as int,
            mosaic_width as int,
            min_l as int,
        );
        let mut l: u32 = min_l;
        let mut more = l <= max_l;
        proof {
            assert(supports@ + whole =~= whole);
        }
        while more
            invariant
                area_in::<U, B>(*self, 0, 0, mosaic_length as int, mosaic_width as int),
                mosaic_length <= u32::MAX - 2,
                mosaic_width <= u32::MAX - 2,
                brick_length == self.brick.spec_length(),
                min_l == self.l + brick_length - 1,
                max_l == self.l + self.length - 1,
                min_l <= l,
                more ==> l <= max_l,
                length_two_bricks@ == by_area::<U, B>(length_two::<U, B>(bricks@)),
                width_two_bricks@ == by_area::<U, B>(width_two::<U, B>(bricks@)),
                areas_sane::<U, B>(supports@),
                whole == supports@ + (if more {
                    under::<U, B>(
                        *self,
                        bricks@,
                        mosaic_length as int,
                        mosaic_width as int,
                        l as int,
                    )
                } else {
                    Seq::empty()
                }),
            decreases
                    (if more {
                        max_l + 1 - l
                    } else {
                        0
                    }),
        {
            let ghost before = supports@;
            let ghost here = at_column::<U, B>(
                *self,
                bricks@,
                mosaic_length as int,
                mosaic_width as int,
                l as int,
            );
            self.add_column::<U>(
                &mut supports,
                &length_two_bricks,
                &width_two_bricks,
                mosaic_length,
                mosaic_width,
                l,
                Ghost(bricks@),
            );
            if max_l - l < brick_length {
                more = false;
            } else {
                l += brick_length;
            }
            proof {
                let next = if more {
                    under::<U, B>(
                        *self,
                        bricks@,
                        mosaic_length as int,
                        mosaic_width as int,
                        l as int,
                    )
                } else {
                    Seq::empty()
                };
                assert(before + (here + next) =~= supports@ + next);
            }
        }
        proof {
            assert(supports@ + Seq::<FilledArea<B>>::empty() =~= supports@);
        }
        let border_bricks = FilledArea::<B>::border_bricks::<U>(bricks);
        self.add_rim::<U>(&mut supports, &border_bricks, mosaic_length, mosaic_width, Ghost(bricks@));
        supports
    }
}

/// The first `n` placed bricks of an area at height `h`: copies of the area's brick, one
/// after another along w, row after row along l.
pub open spec fn area_placements<U: UnitBrick, B: NonUnitBrick<U>, C>(
    area: FilledArea<B>,
    h: u32,
    color: C,
    n: int,
) -> Seq<PlacedBrick<U, B, C>>
    decreases n,
{
    if n <= 0 {
        Seq::empty()
    } else {
        let k = n - 1;
        let per_row = steps(area.width as int, area.brick.spec_width() as int);
        area_placements::<U, B, C>(area, h, color, n - 1).push(
            PlacedBrick {
                l: (area.l + (k / per_row) * area.brick.spec_length()) as u32,
                w: (area.w + (k % per_row) * area.brick.spec_width()) as u32,
                h,
                brick: Brick::NonUnit(area.brick),
                color,
            },
        )
    }
}

/// The placed bricks of the first `n` areas of a layer at height `h`.
pub open spec fn layer_placements<U: UnitBrick, B: NonUnitBrick<U>, C>(
    areas: Seq<FilledArea<B>>,
    h: u32,
    color: C,
    n: int,
) -> Seq<PlacedBrick<U, B, C>>
    decreases n,
{
    if n <= 0 {
        Seq::empty()
    } else {
        let area = areas[n - 1];
        layer_placements::<U, B, C>(areas, h, color, n - 1) + area_placements::<U, B, C>(
            area,
            h,
            color,
            steps(area.length as int, area.brick.spec_length() as int) * steps(
                area.width as int,
                area.brick.spec_width() as int,
            ),
        )
    }
}

/// A base of two layers of plates under a mosaic of `length` by `width`.
pub struct Base<U: UnitBrick, B: NonUnitBrick<U>, C: Color> {
    base_bricks: Vec<FilledArea<B>>,
    support_bricks: Vec<FilledArea<B>>,
    color: C,
    length: u32,
    width: u32,
    unit: PhantomData<U>,
}

/// A copy of a list of areas.
fn copy_areas<B: Copy>(areas: &Vec<FilledArea<B>>) -> (r: Vec<FilledArea<B>>)
    ensures
        r@ == areas@,
{
    let mut r: Vec<FilledArea<B>> = Vec::new();
    let mut i: usize = 0;
    while i < areas.len()
        invariant
            i <= areas.len(),
            r@ == areas@.take(i as int),
        decreases areas.len() - i,
    {
        r.push(areas[i]);
        proof {
            assert(areas@.take(i + 1) =~= areas@.take(i as int).push(areas@[i as int]));
        }
        i += 1;
    }
    proof {
        assert(areas@.take(i as int) =~= areas@);
    }
    r
}

impl<U: UnitBrick, B: NonUnitBrick<U>, C: Color> Base<U, B, C> {
    /// The areas of the upper layer.
    pub closed spec fn base_areas(&self) -> Seq<FilledArea<B>> {
        self.base_bricks@
    }

    /// The areas of the lower layer.
    pub closed spec fn support_areas(&self) -> Seq<FilledArea<B>> {
        self.support_bricks@
    }

    /// The color of the base.
    pub closed spec fn spec_color(&self) -> C {
        self.color
    }

    /// The length of the footprint.
    pub closed spec fn spec_length(&self) -> u32 {
        self.length
    }

    /// The width of the footprint.
    pub closed spec fn spec_width(&self) -> u32 {
        self.width
    }

    #[verifier::type_invariant]
    closed spec fn inv(self) -> bool {
        areas_sane::<U, B>(self.base_bricks@) && areas_sane::<U, B>(self.support_bricks@)
    }

    /// The placed bricks of the base: those of the lower layer at height 0, then those of
    /// the upper layer at height 1.
    pub open spec fn placements(&self) -> Seq<PlacedBrick<U, B, C>> {
        layer_placements::<U, B, C>(
            self.support_areas(),
            0,
            self.spec_color(),
            self.support_areas().len() as int,
        ) + layer_placements::<U, B, C>(
            self.base_areas(),
            1,
            self.spec_color(),
            self.base_areas().len() as int,
        )
    }

    /// Whether a two-by-one plate is accepted as it is, or rotated: it is one long and
    /// two wide, or two long, or one wide.
    pub open spec fn accepts_two_by_one(brick: B) -> bool {
        (brick.spec_length() == 1 && brick.spec_width() == 2) || brick.spec_length() == 2
            || brick.spec_width() == 1
    }

    /// The first of the other bricks that is not one high, if there is one.
    pub open spec fn first_not_plate(other_bricks: Seq<B>) -> Option<B>
        decreases other_bricks.len(),
    {
        if other_bricks.len() == 0 {
            None
        } else if other_bricks.first().spec_height() != 1 {
            Some(other_bricks.first())
        } else {
            Self::first_not_plate(other_bricks.drop_first())
        }
    }

    /// The error that the given bricks call for, if any: the first of the checks, in
    /// their order, that a brick fails.
    pub open spec fn rejection(
        one_by_one: B,
        two_by_one: B,
        two_by_two: B,
        other_bricks: Seq<B>,
    ) -> Option<BaseError<B>> {
        if one_by_one.spec_length() != 1 || one_by_one.spec_width() != 1 {
            Some(BaseError::NotAOneByOneBrick(one_by_one))
        } else if one_by_one.spec_height() != 1 {
            Some(BaseError::NotAPlate(one_by_one))
        } else if !Self::accepts_two_by_one(two_by_one) {
            Some(BaseError::NotATwoByOneBrick(two_by_one))
        } else if !(two_by_one.spec_length() == 1 && two_by_one.spec_width() == 2)
            && two_by_one.spec_height() != 1 {
            Some(BaseError::NotAPlate(two_by_one))
        } else if two_by_two.spec_length() != 2 || two_by_two.spec_width() != 2 {
            Some(BaseError::NotATwoByTwoBrick(two_by_two))
        } else if two_by_two.spec_height() != 1 {
            Some(BaseError::NotAPlate(two_by_two))
        } else {
            match Self::first_not_plate(other_bricks) {
                Some(brick) => Some(BaseError::NotAPlate(brick)),
                None => None,
            }
        }
    }

    /// The two-by-one plate, laid along l.
    pub open spec fn long_plate(two_by_one: B) -> B {
        if two_by_one.spec_length() == 1 && two_by_one.spec_width() == 2 {
            two_by_one.spec_rotate_90()
        } else {
            two_by_one
        }
    }

    /// The plates that are one wide and an even number long, as they are given: the
    /// two-by-one plate, then each of the other bricks that is such a plate, or such a
    /// plate turned by a quarter.
    pub open spec fn even_by_one(two_by_one: B, other_bricks: Seq<B>) -> Seq<B>
        decreases other_bricks.len(),
    {
        if other_bricks.len() == 0 {
            seq![Self::long_plate(two_by_one)]
        } else {
            let before = Self::even_by_one(two_by_one, other_bricks.drop_last());
            let brick = other_bricks.last();
            if brick.spec_length() % 2 == 0 && brick.spec_width() == 1 {
                before.push(brick)
            } else if brick.spec_length() == 1 && brick.spec_width() % 2 == 0 {
                before.push(brick.spec_rotate_90())
            } else {
                before
            }
        }
    }

    /// The plates that are one long and an even number wide, as they are given.
    pub open spec fn one_by_even(two_by_one: B, other_bricks: Seq<B>) -> Seq<B>
        decreases other_bricks.len(),
    {
        if other_bricks.len() == 0 {
            seq![Self::long_plate(two_by_one).spec_rotate_90()]
        } else {
            let before = Self::one_by_even(two_by_one, other_bricks.drop_last());
            let brick = other_bricks.last();
            if brick.spec_length() % 2 == 0 && brick.spec_width() == 1 {
                before.push(brick.spec_rotate_90())
            } else if brick.spec_length() == 1 && brick.spec_width() % 2 == 0 {
                before.push(brick)
            } else {
                before
            }
        }
    }

    /// The plates that are an even number long and wide, as they are given: the
    /// two-by-two plate, then each of the other bricks that is such a plate and is one of
    /// neither kind above, with itself turned by a quarter if it is not square.
    pub open spec fn even_by_even(two_by_two: B, other_bricks: Seq<B>) -> Seq<B>
        decreases other_bricks.len(),
    {
        if other_bricks.len() == 0 {
            seq![two_by_two]
        } else {
            let before = Self::even_by_even(two_by_two, other_bricks.drop_last());
            let brick = other_bricks.last();
            if (brick.spec_length() % 2 == 0 && brick.spec_width() == 1) || (brick.spec_length()
                == 1 && brick.spec_width() % 2 == 0) {
                before
            } else if brick.spec_length() % 2 == 0 && brick.spec_width() % 2 == 0 {
                if brick.spec_length() != brick.spec_width() {
                    before.push(brick).push(brick.spec_rotate_90())
                } else {
                    before.push(brick)
                }
            } else {
                before
            }
        }
    }

    /// The areas of the upper layer: the even part of the footprint filled with the
    /// plates of even length and width, the largest first; the column that is left at an
    /// odd length filled with the plates that are one long, as they are given; the row
    /// that is left at an odd width filled with the plates that are one wide, the largest
    /// first; and the one-by-one plate in the corner between them.
    pub open spec fn upper_layer(
        length: u32,
        width: u32,
        one_by_one: B,
        two_by_one: B,
        two_by_two: B,
        other_bricks: Seq<B>,
    ) -> Seq<FilledArea<B>> {
        let even_length = length - length % 2;
        let even_width = width - width % 2;
        let squares = Self::even_by_even(two_by_two, other_bricks);
        let rows = Self::even_by_one(two_by_one, other_bricks);
        let columns = Self::one_by_even(two_by_one, other_bricks);
        fill_spec::<U, B>(
            0,
            0,
            even_length,
            even_width,
            0,
            crate::sorting::sorted_desc(squares, footprints::<U, B>(squares)),
        ) + (if length % 2 == 1 {
            fill_spec::<U, B>(even_length, 0, 1, even_width, 0, columns)
        } else {
            Seq::empty()
        }) + (if width % 2 == 1 {
            fill_spec::<U, B>(
                0,
                even_width,
                even_length,
                1,
                0,
                crate::sorting::sorted_desc(rows, footprints::<U, B>(rows)),
            )
        } else {
            Seq::empty()
        }) + (if length % 2 == 1 && width % 2 == 1 {
            seq![
                FilledArea {
                    brick: one_by_one,
                    l: even_length as u32,
                    w: even_width as u32,
                    length: 1,
                    width: 1,
                },
            ]
        } else {
            Seq::empty()
        })
    }

    /// The bricks of which supports are made: the three plates, the two-by-one plate also
    /// turned by a quarter, and the other bricks.
    pub open spec fn support_bricks_of(
        one_by_one: B,
        two_by_one: B,
        two_by_two: B,
        other_bricks: Seq<B>,
    ) -> Seq<B> {
        seq![
            one_by_one,
            Self::long_plate(two_by_one),
            Self::long_plate(two_by_one).spec_rotate_90(),
            two_by_two,
        ] + other_bricks
    }

    /// The supports under the first `n` areas of the upper layer.
    pub open spec fn supports_under(
        areas: Seq<FilledArea<B>>,
        bricks: Seq<B>,
        length: int,
        width: int,
        n: int,
    ) -> Seq<FilledArea<B>>
        decreases n,
    {
        if n <= 0 {
            Seq::empty()
        } else {
            Self::supports_under(areas, bricks, length, width, n - 1) + area_supports::<U, B>(
                areas[n - 1],
                bricks,
                length,
                width,
            )
        }
    }

    /// The areas of the lower layer. A footprint of at most two by two has the areas of
    /// the upper layer; one of three by two or two by three has a two-by-one and a
    /// two-by-two plate; any other has the supports under each area of the upper layer.
    pub open spec fn lower_layer(
        upper: Seq<FilledArea<B>>,
        length: u32,
        width: u32,
        one_by_one: B,
        two_by_one: B,
        two_by_two: B,
        other_bricks: Seq<B>,
    ) -> Seq<FilledArea<B>> {
        let long = Self::long_plate(two_by_one);
        if length < 3 && width < 3 {
            upper
        } else if length == 3 && width == 2 {
            seq![
                FilledArea { brick: long.spec_rotate_90(), l: 0, w: 0, length: 1, width: 2 },
                FilledArea { brick: two_by_two, l: 1, w: 0, length: 2, width: 2 },
            ]
        } else if length == 2 && width == 3 {
            seq![
                FilledArea { brick: long, l: 0, w: 0, length: 2, width: 1 },
                FilledArea { brick: two_by_two, l: 0, w: 1, length: 2, width: 2 },
            ]
        } else {
            Self::supports_under(
                upper,
                Self::support_bricks_of(one_by_one, two_by_one, two_by_two, other_bricks),
                length as int,
                width as int,
                upper.len() as int,
            )
        }
    }

    /// Builds the base under a mosaic of `length` by `width`.
    ///
    /// The upper layer fills the even part of the footprint with the plates of even
    /// length and width, the column that is left at an odd length with the plates that
    /// are one long, the row that is left at an odd width with the plates that are one
    /// wide, and the corner between them with the one-by-one plate.
    pub fn new(
        length: u32,
        width: u32,
        color: C,
        one_by_one: B,
        two_by_one: B,
        two_by_two: B,
        other_bricks: &[B],
    ) -> (r: Result<Base<U, B, C>, BaseError<B>>)
        requires
            length <= u32::MAX - 2,
            width <= u32::MAX - 2,
            two_by_one.spec_length() >= 1,
            two_by_one.spec_width() >= 1,
        ensures
            match r {
                Ok(base) => {
                    &&& Self::rejection(one_by_one, two_by_one, two_by_two, other_bricks@) is None
                    &&& base.spec_length() == length
                    &&& base.spec_width() == width
                    &&& base.spec_color() == color
                    &&& areas_in::<U, B>(base.base_areas(), length as int, width as int)
                    &&& base.base_areas() == Self::upper_layer(
                        length,
                        width,
                        one_by_one,
                        two_by_one,
                        two_by_two,
                        other_bricks@,
                    )
                    &&& base.support_areas() == Self::lower_layer(
                        base.base_areas(),
                        length,
                        width,
                        one_by_one,
                        two_by_one,
                        two_by_two,
                        other_bricks@,
                    )
                },
                Err(error) => Self::rejection(one_by_one, two_by_one, two_by_two, other_bricks@)
                    == Some(error),
            },
    {
        if one_by_one.length() != 1 || one_by_one.width() != 1 {
            return Err(BaseError::NotAOneByOneBrick(one_by_one));
        } else if one_by_one.height() != 1 {
            return Err(BaseError::NotAPlate(one_by_one));
        }
        let mut long_plate = two_by_one;
        if two_by_one.length() == 1 && two_by_one.width() == 2 {
            long_plate = two_by_one.rotate_90();
        } else if two_by_one.length() != 2 && two_by_one.width() != 1 {
            return Err(BaseError::NotATwoByOneBrick(two_by_one));
        } else if two_by_one.height() != 1 {
            return Err(BaseError::NotAPlate(two_by_one));
        }
        if two_by_two.length() != 2 || two_by_two.width() != 2 {
            return Err(BaseError::NotATwoByTwoBrick(two_by_two));
        } else if two_by_two.height() != 1 {
            return Err(BaseError::NotAPlate(two_by_two));
        }
        let mut even_by_one_bricks: Vec<B> = Vec::new();
        even_by_one_bricks.push(long_plate);
        let mut one_by_even_bricks: Vec<B> = Vec::new();
        one_by_even_bricks.push(long_plate.rotate_90());
        let mut even_by_even_bricks: Vec<B> = Vec::new();
        even_by_even_bricks.push(two_by_two);
        let mut others: Vec<B> = Vec::new();
        let mut i: usize = 0;
        proof {
            assert(other_bricks@.skip(0) =~= other_bricks@);
            assert(other_bricks@.take(0) =~= Seq::<B>::empty());
            assert(even_by_one_bricks@ =~= Self::even_by_one(two_by_one, other_bricks@.take(0)));
            assert(one_by_even_bricks@ =~= Self::one_by_even(two_by_one, other_bricks@.take(0)));
            assert(even_by_even_bricks@ =~= Self::even_by_even(two_by_two, other_bricks@.take(0)));
        }
        while i < other_bricks.len()
            invariant
                i <= other_bricks.len(),
                others@ == other_bricks@.take(i as int),
                Self::first_not_plate(other_bricks@) == Self::first_not_plate(
                    other_bricks@.skip(i as int),
                ),
                Self::rejection(one_by_one, two_by_one, two_by_two, other_bricks@) == (
                match Self::first_not_plate(other_bricks@) {
                    Some(brick) => Some(BaseError::NotAPlate(brick)),
                    None => None,
                }),
                one_by_one.spec_length() == 1,
                one_by_one.spec_width() == 1,
                long_plate.spec_length() >= 1,
                long_plate.spec_width() >= 1,
                long_plate == Self::long_plate(two_by_one),
                two_by_two.spec_length() == 2,
                two_by_two.spec_width() == 2,
                even_by_one_bricks@ == Self::even_by_one(two_by_one, other_bricks@.take(i as int)),
                one_by_even_bricks@ == Self::one_by_even(two_by_one, other_bricks@.take(i as int)),
                even_by_even_bricks@ == Self::even_by_even(two_by_two, other_bricks@.take(i as int)),
            decreases other_bricks.len() - i,
        {
            let brick = other_bricks[i];
            proof {
                let rest = other_bricks@.skip(i as int);
                assert(rest.first() == brick);
                assert(rest.drop_first() =~= other_bricks@.skip(i + 1));
                assert(other_bricks@.take(i + 1) =~= other_bricks@.take(i as int).push(brick));
                assert(other_bricks@.take(i + 1).drop_last() =~= other_bricks@.take(i as int));
                assert(other_bricks@.take(i + 1).last() == brick);
            }
            if brick.height() != 1 {
                return Err(BaseError::NotAPlate(brick));
            }
            if is_even(brick.length() as u32) && brick.width() == 1 {
                even_by_one_bricks.push(brick);
                one_by_even_bricks.push(brick.rotate_90());
            } else if brick.length() == 1 && is_even(brick.width() as u32) {
                even_by_one_bricks.push(brick.rotate_90());
                one_by_even_bricks.push(brick);
            } else if is_even(brick.length() as u32) && is_even(brick.width() as u32) {
                even_by_even_bricks.push(brick);
                if brick.length() != brick.width() {
                    even_by_even_bricks.push(brick.rotate_90());
                }
            }
            others.push(brick);
            i += 1;
        }
        let even_by_one_bricks = sort_by_area::<U, B>(&even_by_one_bricks);
        let even_by_even_bricks = sort_by_area::<U, B>(&even_by_even_bricks);
        let even_length = make_even(length);
        let even_width = make_even(width);
        let mut base_bricks = fill::<U, B>(0, 0, even_length, even_width, 0, &even_by_even_bricks);
        let is_odd_length = length != even_length;
        let is_odd_width = width != even_width;
        let ghost even_part = base_bricks@;
        if is_odd_length {
            let mut areas_right = fill::<U, B>(even_length, 0, 1, even_width, 0, &one_by_even_bricks);
            base_bricks.append(&mut areas_right);
        }
        let ghost with_right = base_bricks@;
        if is_odd_width {
            let mut areas_below = fill::<U, B>(0, even_width, even_length, 1, 0, &even_by_one_bricks);
            base_bricks.append(&mut areas_below);
        }
        let ghost with_below = base_bricks@;
        if is_odd_length && is_odd_width {
            base_bricks.push(
                FilledArea { brick: one_by_one, l: even_length, w: even_width, length: 1, width: 1 },
            );
        }
        proof {
            assert(other_bricks@.take(i as int) =~= other_bricks@);
            assert(base_bricks@ =~= Self::upper_layer(
                length,
                width,
                one_by_one,
                two_by_one,
                two_by_two,
                other_bricks@,
            ));
            assert forall|k: int| 0 <= k < base_bricks@.len() implies area_in::<U, B>(
                #[trigger] base_bricks@[k],
                0,
                0,
                length as int,
                width as int,
            ) by {
                if k < even_part.len() {
                    assert(base_bricks@[k] == even_part[k]);
                } else if k < with_right.len() {
                    assert(base_bricks@[k] == with_right[k]);
                } else if k < with_below.len() {
                    assert(base_bricks@[k] == with_below[k]);
                }
            }
            assert(other_bricks@.skip(i as int).len() == 0);
        }
        let support_bricks = Self::build_supports(
            &base_bricks,
            one_by_one,
            long_plate,
            two_by_two,
            &others,
            length,
            width,
            Ghost(two_by_one),
        );
        Ok(Base { base_bricks, support_bricks, color, length, width, unit: PhantomData })
    }

    /// The length of the footprint.
    pub fn length(&self) -> (r: u32)
        ensures
            r == self.spec_length(),
    {
        self.length
    }

    /// The width of the footprint.
    pub fn width(&self) -> (r: u32)
        ensures
            r == self.spec_width(),
    {
        self.width
    }

    /// The height of the base: two layers of plates.
    pub fn height(&self) -> (r: u32)
        ensures
            r == 2,
    {
        2
    }

    /// The areas of the lower layer, which holds the plates of the upper layer together.
    fn build_supports(
        base_bricks: &Vec<FilledArea<B>>,
        one_by_one: B,
        two_by_one: B,
        two_by_two: B,
        other_bricks: &Vec<B>,
        mosaic_length: u32,
        mosaic_width: u32,
        Ghost(given): Ghost<B>,
    ) -> (supports: Vec<FilledArea<B>>)
        requires
            areas_in::<U, B>(base_bricks@, mosaic_length as int, mosaic_width as int),
            mosaic_length <= u32::MAX - 2,
            mosaic_width <= u32::MAX - 2,
            two_by_one == Self::long_plate(given),
            two_by_one.spec_length() >= 1,
            two_by_one.spec_width() >= 1,
            two_by_two.spec_length() >= 1,
            two_by_two.spec_width() >= 1,
        ensures
            areas_sane::<U, B>(supports@),
            supports@ == Self::lower_layer(
                base_bricks@,
                mosaic_length,
                mosaic_width,
                one_by_one,
                given,
                two_by_two,
                other_bricks@,
            ),
    {
        let mut bricks: Vec<B> = Vec::new();
        bricks.push(one_by_one);
        bricks.push(two_by_one);
        bricks.push(two_by_one.rotate_90());
        bricks.push(two_by_two);
        let ghost plates = bricks@;
        let mut i: usize = 0;
        while i < other_bricks.len()
            invariant
                i <= other_bricks.len(),
                bricks@ == plates + other_bricks@.take(i as int),
            decreases other_bricks.len() - i,
        {
            bricks.push(other_bricks[i]);
            proof {
                assert(other_bricks@.take(i + 1) =~= other_bricks@.take(i as int).push(
                    other_bricks@[i as int],
                ));
                assert(bricks@ =~= plates + other_bricks@.take(i + 1));
            }
            i += 1;
        }
        proof {
            assert(other_bricks@.take(i as int) =~= other_bricks@);
            assert(plates =~= seq![
                one_by_one,
                Self::long_plate(given),
                Self::long_plate(given).spec_rotate_90(),
                two_by_two,
            ]);
            assert(bricks@ == Self::support_bricks_of(one_by_one, given, two_by_two, other_bricks@));
        }

        // Return the same single brick used for 2x2 and smaller bases
        if mosaic_length < 3 && mosaic_width < 3 {
            let supports = copy_areas(base_bricks);
            proof {
                assert forall|k: int| 0 <= k < supports@.len() implies area_sane::<U, B>(
                    #[trigger] supports@[k],
                ) by {
                    assert(area_in::<U, B>(
                        base_bricks@[k],
                        0,
                        0,
                        mosaic_length as int,
                        mosaic_width as int,
                    ));
                }
            }
            return supports;
        } else if mosaic_length == 3 && mosaic_width == 2 {
            let mut supports: Vec<FilledArea<B>> = Vec::new();
            supports.push(
                FilledArea { brick: two_by_one.rotate_90(), l: 0, w: 0, length: 1, width: 2 },
            );
            supports.push(FilledArea { brick: two_by_two, l: 1, w: 0, length: 2, width: 2 });
            proof {
                assert(supports@ =~= Self::lower_layer(
                    base_bricks@,
                    mosaic_length,
                    mosaic_width,
                    one_by_one,
                    given,
                    two_by_two,
                    other_bricks@,
                ));
            }
            return supports;
        } else if mosaic_length == 2 && mosaic_width == 3 {
            let mut supports: Vec<FilledArea<B>> = Vec::new();
            supports.push(FilledArea { brick: two_by_one, l: 0, w: 0, length: 2, width: 1 });
            supports.push(FilledArea { brick: two_by_two, l: 0, w: 1, length: 2, width: 2 });
            proof {
                assert(supports@ =~= Self::lower_layer(
                    base_bricks@,
                    mosaic_length,
                    mosaic_width,
                    one_by_one,
                    given,
                    two_by_two,
                    other_bricks@,
                ));
            }
            return supports;
        }
        let mut supports: Vec<FilledArea<B>> = Vec::new();
        let mut k: usize = 0;
        while k < base_bricks.len()
            invariant
                k <= base_bricks.len(),
                areas_in::<U, B>(base_bricks@, mosaic_length as int, mosaic_width as int),
                mosaic_length <= u32::MAX - 2,
                mosaic_width <= u32::MAX - 2,
                areas_sane::<U, B>(supports@),
                supports@ == Self::supports_under(
                    base_bricks@,
                    bricks@,
                    mosaic_length as int,
                    mosaic_width as int,
                    k as int,
                ),
            decreases base_bricks.len() - k,
        {
            let ghost before = supports@;
            let mut area_supports = base_bricks[k].build_supports::<U>(
                &bricks,
                mosaic_length,
                mosaic_width,
            );
            let ghost added = area_supports@;
            supports.append(&mut area_supports);
            proof {
                assert forall|j: int| 0 <= j < supports@.len() implies area_sane::<U, B>(
                    #[trigger] supports@[j],
                ) by {
                    if j < before.len() {
                        assert(supports@[j] == before[j]);
                    } else {
                        assert(supports@[j] == added[j - before.len()]);
                    }
                }
            }
            k += 1;
        }
        supports
    }

    /// The placed bricks of the areas at height `h`.
    fn layer_iter(&self, bricks: &Vec<FilledArea<B>>, h: u32) -> (r: Vec<PlacedBrick<U, B, C>>)
        requires
            areas_sane::<U, B>(bricks@),
        ensures
            r@ == layer_placements::<U, B, C>(bricks@, h, self.spec_color(), bricks@.len() as int),
    {
        let mut r: Vec<PlacedBrick<U, B, C>> = Vec::new();
        let mut k: usize = 0;
        while k < bricks.len()
            invariant
                k <= bricks.len(),
                areas_sane::<U, B>(bricks@),
                r@ == layer_placements::<U, B, C>(bricks@, h, self.spec_color(), k as int),
            decreases bricks.len() - k,
        {
            let area = bricks[k];
            let mut placed = self.area_iter(area, h);
            r.append(&mut placed);
            k += 1;
        }
        r
    }

    /// The placed bricks of one area at height `h`.
    fn area_iter(&self, area: FilledArea<B>, h: u32) -> (r: Vec<PlacedBrick<U, B, C>>)
        requires
            area_sane::<U, B>(area),
        ensures
            r@ == area_placements::<U, B, C>(
                area,
                h,
                self.spec_color(),
                steps(area.length as int, area.brick.spec_length() as int) * steps(
                    area.width as int,
                    area.brick.spec_width() as int,
                ),
            ),
    {
        let brick_length: u32 = area.brick.length() as u32;
        let brick_width: u32 = area.brick.width() as u32;
        let rows: u32 = count_steps(area.length, brick_length);
        let per_row: u32 = count_steps(area.width, brick_width);
        let mut r: Vec<PlacedBrick<U, B, C>> = Vec::new();
        let mut i: u32 = 0;
        proof {
            assert(0 * per_row == 0) by (nonlinear_arith);
        }
        while i < rows
            invariant
                area_sane::<U, B>(area),
                brick_length == area.brick.spec_length(),
                brick_width == area.brick.spec_width(),
                rows == steps(area.length as int, brick_length as int),
                per_row == steps(area.width as int, brick_width as int),
                i <= rows,
                r@ == area_placements::<U, B, C>(area, h, self.spec_color(), i * per_row),
            decreases rows - i,
        {
            proof {
                lemma_step_inside(area.length as int, brick_length as int, i as int);
            }
            let l: u32 = area.l + i * brick_length;
            let mut j: u32 = 0;
            while j < per_row
                invariant
                    area_sane::<U, B>(area),
                    brick_length == area.brick.spec_length(),
                    brick_width == area.brick.spec_width(),
                    per_row == steps(area.width as int, brick_width as int),
                    j <= per_row,
                    l == area.l + i * brick_length,
                    r@ == area_placements::<U, B, C>(area, h, self.spec_color(), i * per_row + j),
                decreases per_row - j,
            {
                proof {
                    lemma_step_inside(area.width as int, brick_width as int, j as int);
                }
                let w: u32 = area.w + j * brick_width;
                r.push(
                    PlacedBrick { l, w, h, brick: Brick::NonUnit(area.brick), color: self.color },
                );
                proof {
                    let k = i * per_row + j;
                    assert(0 <= i * per_row) by (nonlinear_arith)
                        requires
                            0 <= i,
                            0 <= per_row,
                    ;
                    vstd::arithmetic::div_mod::lemma_fundamental_div_mod_converse(
                        k,
                        per_row as int,
                        i as int,
                        j as int,
                    );
                }
                j += 1;
            }
            proof {
                assert(i * per_row + per_row == (i + 1) * per_row) by (nonlinear_arith);
            }
            i += 1;
        }
        r
    }

    /// The placed bricks of the base: the lower layer at height 0, then the upper layer
    /// at height 1.
    pub fn iter(&self) -> (r: Vec<PlacedBrick<U, B, C>>)
        ensures
            r@ == self.placements(),
    {
        proof {
            use_type_invariant(self);
        }
        let mut r = self.layer_iter(&self.support_bricks, 0);
        let mut upper = self.layer_iter(&self.base_bricks, 1);
        r.append(&mut upper);
        r
    }
}

/// The number of copies of a brick that lie side by side along an extent.
fn count_steps(extent: u32, step: u32) -> (r: u32)
    requires
        1 <= step,
    ensures
        r == steps(extent as int, step as int),
{
    if extent == 0 {
        0
    } else {
        proof {
            vstd::arithmetic::div_mod::lemma_div_is_ordered_by_denominator(
                (extent - 1) as int,
                1,
                step as int,
            );
            vstd::arithmetic::div_mod::lemma_div_basics((extent - 1) as int);
        }
        (extent - 1) / step + 1
    }
}

} // verus!
