//! Catalogs: which bricks may fill a chunk, and in which order they are tried.

use vstd::prelude::*;
use vstd::std_specs::cmp::PartialEqSpec;
use crate::brick::{Brick, NonUnitBrick, UnitBrick};
use crate::chunk::{VolumeSortedBrick, bricks_of};
use crate::color::Color;
use crate::geometry::positive;
use crate::packing::brick_dims;
use crate::sorting::{lemma_sorted_map, lemma_sorted_members, sort_desc, sorted_desc};

verus! {

/// The orientations in which a shape of the catalog may be placed: none if one of its
/// extents is zero, one if it is as long as wide, else the shape and the shape turned
/// by a quarter.
pub open spec fn expand<U: UnitBrick, B: NonUnitBrick<U>>(brick: B) -> Seq<Brick<U, B>> {
    if brick.spec_length() > 0 && brick.spec_width() > 0 && brick.spec_height() > 0 {
        if brick.spec_length() != brick.spec_width() {
            seq![Brick::NonUnit(brick), Brick::NonUnit(brick.spec_rotate_90())]
        } else {
            seq![Brick::NonUnit(brick)]
        }
    } else {
        Seq::empty()
    }
}

/// The place of the first key that equals `unit`, as `==` compares them.
pub open spec fn first_key<U: UnitBrick>(keys: Seq<U>, unit: U) -> Option<int>
    decreases keys.len(),
{
    if keys.len() == 0 {
        None
    } else {
        match first_key(keys.drop_last(), unit) {
            Some(place) => Some(place),
            None => if keys.last().eq_spec(&unit) {
                Some(keys.len() - 1)
            } else {
                None
            },
        }
    }
}

/// The unit bricks of the catalog, each the first of those that equal it.
pub open spec fn keys<U: UnitBrick, B: NonUnitBrick<U>>(catalog: Seq<B>) -> Seq<U>
    decreases catalog.len(),
{
    if catalog.len() == 0 {
        Seq::empty()
    } else {
        let before = keys::<U, B>(catalog.drop_last());
        match first_key(before, catalog.last().spec_unit_brick()) {
            Some(_) => before,
            None => before.push(catalog.last().spec_unit_brick()),
        }
    }
}

/// The place, among the keys, of the unit brick of shape `n` of the catalog.
pub open spec fn assigned<U: UnitBrick, B: NonUnitBrick<U>>(catalog: Seq<B>, n: int) -> int {
    let before = keys::<U, B>(catalog.take(n));
    match first_key(before, catalog[n].spec_unit_brick()) {
        Some(place) => place,
        None => before.len() as int,
    }
}

/// The orientations of those of the first `n` shapes of the catalog whose unit brick has
/// place `place` among the keys.
pub open spec fn group<U: UnitBrick, B: NonUnitBrick<U>>(catalog: Seq<B>, place: int, n: int) -> Seq<
    Brick<U, B>,
>
    decreases n,
{
    if n <= 0 {
        Seq::empty()
    } else {
        group::<U, B>(catalog, place, n - 1) + (if assigned::<U, B>(catalog, n - 1) == place {
            expand::<U, B>(catalog[n - 1])
        } else {
            Seq::empty()
        })
    }
}

/// The volumes of the bricks.
pub open spec fn volumes<U: UnitBrick, B: NonUnitBrick<U>>(bricks: Seq<Brick<U, B>>) -> Seq<u32> {
    bricks.map_values(|brick: Brick<U, B>| brick.volume() as u32)
}

/// The bricks that are tried for the chunks whose unit brick has place `place` among the
/// keys: the orientations of the shapes with that unit brick, and the unit brick itself,
/// the largest volume first; bricks of the same volume in the order of the catalog, the
/// unit brick last.
pub open spec fn sizes<U: UnitBrick, B: NonUnitBrick<U>>(catalog: Seq<B>, place: int) -> Seq<
    Brick<U, B>,
> {
    let list = group::<U, B>(catalog, place, catalog.len() as int).push(
        Brick::Unit(keys::<U, B>(catalog)[place]),
    );
    sorted_desc(list, volumes(list))
}

/// Whether the brick is excluded for the color: it is a shape, and the exclusions hold a
/// rotation of it with a color that equals the color.
pub open spec fn excluded<U: UnitBrick, B: NonUnitBrick<U>, C: Color>(
    brick: Brick<U, B>,
    exclusions: Seq<(B, C)>,
    color: C,
) -> bool {
    match brick {
        Brick::Unit(_) => false,
        Brick::NonUnit(shape) => exists|k: int|
            0 <= k < exclusions.len() && color.eq_spec(&(#[trigger] exclusions[k]).1)
                && exclusions[k].0.spec_is_rotation_of(&shape),
    }
}

/// The bricks that are not excluded for the color, in their order.
pub open spec fn allowed<U: UnitBrick, B: NonUnitBrick<U>, C: Color>(
    bricks: Seq<Brick<U, B>>,
    exclusions: Seq<(B, C)>,
    color: C,
) -> Seq<Brick<U, B>>
    decreases bricks.len(),
{
    if bricks.len() == 0 {
        Seq::empty()
    } else {
        allowed(bricks.drop_last(), exclusions, color) + (if excluded(
            bricks.last(),
            exclusions,
            color,
        ) {
            Seq::empty()
        } else {
            seq![bricks.last()]
        })
    }
}

/// The bricks that are tried, in their order, for a chunk of the given unit brick and
/// color; `None` if no shape of the catalog has a unit brick that equals the chunk's.
pub open spec fn candidates<U: UnitBrick, B: NonUnitBrick<U>, C: Color>(
    catalog: Seq<B>,
    exclusions: Seq<(B, C)>,
    unit_brick: U,
    color: C,
) -> Option<Seq<Brick<U, B>>> {
    match first_key(keys::<U, B>(catalog), unit_brick) {
        Some(place) => Some(allowed(sizes::<U, B>(catalog, place), exclusions, color)),
        None => None,
    }
}

/// Whether `==` on unit bricks and colors and `is_rotation_of` on shapes follow their
/// specifications.
pub open spec fn obeys<U: UnitBrick, B: NonUnitBrick<U>, C: Color>() -> bool {
    U::obeys_eq_spec() && C::obeys_eq_spec() && B::obeys_rotation_spec()
}

/// Where no key before place `place` equals `unit` and the key at `place`, if there is
/// one, does, `place` is the place of the first key that equals `unit`.
pub proof fn lemma_first_key_scan<U: UnitBrick>(keys: Seq<U>, unit: U, place: int)
    requires
        0 <= place <= keys.len(),
        forall|k: int| 0 <= k < place ==> !(#[trigger] keys[k]).eq_spec(&unit),
        place < keys.len() ==> keys[place].eq_spec(&unit),
    ensures
        first_key(keys, unit) == (if place < keys.len() {
            Some(place)
        } else {
            None
        }),
    decreases keys.len(),
{
    if keys.len() > 0 {
        let shorter = keys.drop_last();
        if place < keys.len() - 1 {
            assert(shorter[place] == keys[place]);
            assert forall|k: int| 0 <= k < place implies !(#[trigger] shorter[k]).eq_spec(&unit) by {
                assert(shorter[k] == keys[k]);
            }
            lemma_first_key_scan(shorter, unit, place);
        } else {
            assert forall|k: int| 0 <= k < shorter.len() implies !(#[trigger] shorter[k]).eq_spec(
                &unit,
            ) by {
                assert(shorter[k] == keys[k]);
            }
            lemma_first_key_scan(shorter, unit, shorter.len() as int);
        }
    }
}

/// The bricks that are tried for the chunks of one unit brick.
pub struct Partition<U, B> {
    pub unit_brick: U,
    pub bricks: Vec<VolumeSortedBrick<U, B>>,
}

/// The unit bricks of the partitions.
pub open spec fn partition_keys<U, B>(partitions: Seq<Partition<U, B>>) -> Seq<U> {
    partitions.map_values(|partition: Partition<U, B>| partition.unit_brick)
}

/// Whether every brick of the list has positive extents.
pub open spec fn all_positive<U: UnitBrick, B: NonUnitBrick<U>>(bricks: Seq<Brick<U, B>>) -> bool {
    forall|k: int| 0 <= k < bricks.len() ==> positive(brick_dims(#[trigger] bricks[k]))
}

/// The place of the first partition whose unit brick equals `unit`.
pub fn find_partition<U: UnitBrick, B: NonUnitBrick<U>>(
    partitions: &Vec<Partition<U, B>>,
    unit: U,
) -> (r: Option<usize>)
    ensures
        r matches Some(place) ==> place < partitions@.len(),
        U::obeys_eq_spec() ==> first_key(partition_keys(partitions@), unit) == (match r {
            Some(place) => Some(place as int),
            None => None,
        }),
{
    let mut place: usize = 0;
    while place < partitions.len()
        invariant
            place <= partitions.len(),
            U::obeys_eq_spec() ==> forall|k: int|
                0 <= k < place ==> !(#[trigger] partition_keys(partitions@)[k]).eq_spec(&unit),
        decreases partitions.len() - place,
    {
        if partitions[place].unit_brick == unit {
            proof {
                if U::obeys_eq_spec() {
                    assert(partition_keys(partitions@)[place as int] == partitions@[place as int].unit_brick);
                    lemma_first_key_scan(partition_keys(partitions@), unit, place as int);
                }
            }
            return Some(place);
        }
        proof {
            assert(partition_keys(partitions@)[place as int] == partitions@[place as int].unit_brick);
        }
        place += 1;
    }
    proof {
        if U::obeys_eq_spec() {
            lemma_first_key_scan(partition_keys(partitions@), unit, place as int);
        }
    }
    None
}

/// The place of the first key that equals `unit` is the place of a key.
pub proof fn lemma_first_key_bound<U: UnitBrick>(keys: Seq<U>, unit: U)
    ensures
        first_key(keys, unit) matches Some(place) ==> 0 <= place < keys.len(),
    decreases keys.len(),
{
    if keys.len() > 0 {
        lemma_first_key_bound(keys.drop_last(), unit);
    }
}

/// The unit brick of shape `n` has a place among the keys of the first `n + 1` shapes,
/// which are the keys of the first `n` shapes and at most one more.
pub proof fn lemma_assigned_bound<U: UnitBrick, B: NonUnitBrick<U>>(catalog: Seq<B>, n: int)
    requires
        0 <= n < catalog.len(),
    ensures
        0 <= assigned::<U, B>(catalog, n) < keys::<U, B>(catalog.take(n + 1)).len(),
        keys::<U, B>(catalog.take(n)).len() <= keys::<U, B>(catalog.take(n + 1)).len(),
        keys::<U, B>(catalog.take(n + 1)) == (match first_key(
            keys::<U, B>(catalog.take(n)),
            catalog[n].spec_unit_brick(),
        ) {
            Some(_) => keys::<U, B>(catalog.take(n)),
            None => keys::<U, B>(catalog.take(n)).push(catalog[n].spec_unit_brick()),
        }),
{
    assert(catalog.take(n + 1).drop_last() =~= catalog.take(n));
    assert(catalog.take(n + 1).last() == catalog[n]);
    lemma_first_key_bound(keys::<U, B>(catalog.take(n)), catalog[n].spec_unit_brick());
}

/// The keys of the first shapes of the catalog are among the keys of more of them.
pub proof fn lemma_keys_grow<U: UnitBrick, B: NonUnitBrick<U>>(catalog: Seq<B>, m: int, n: int)
    requires
        0 <= m <= n <= catalog.len(),
    ensures
        keys::<U, B>(catalog.take(m)).len() <= keys::<U, B>(catalog.take(n)).len(),
    decreases n - m,
{
    if m < n {
        lemma_assigned_bound::<U, B>(catalog, m);
        lemma_keys_grow::<U, B>(catalog, m + 1, n);
    }
}

/// No shape has a unit brick whose place lies behind the keys.
pub proof fn lemma_group_beyond<U: UnitBrick, B: NonUnitBrick<U>>(
    catalog: Seq<B>,
    place: int,
    n: int,
)
    requires
        0 <= n <= catalog.len(),
        keys::<U, B>(catalog.take(n)).len() <= place,
    ensures
        group::<U, B>(catalog, place, n) == Seq::<Brick<U, B>>::empty(),
    decreases n,
{
    if n > 0 {
        lemma_assigned_bound::<U, B>(catalog, n - 1);
        lemma_group_beyond::<U, B>(catalog, place, n - 1);
        assert(group::<U, B>(catalog, place, n - 1) + Seq::<Brick<U, B>>::empty() =~= Seq::<
            Brick<U, B>,
        >::empty());
    }
}

/// Whether one of the bricks is a unit brick.
pub open spec fn has_unit<U: UnitBrick, B: NonUnitBrick<U>>(bricks: Seq<Brick<U, B>>) -> bool {
    exists|k: int| 0 <= k < bricks.len() && #[trigger] bricks[k] is Unit
}

/// Sorts the shapes of the catalog by their unit bricks: one partition for each unit
/// brick, with the orientations of its shapes in the order of the catalog.
pub fn group_bricks<U: UnitBrick, B: NonUnitBrick<U>>(bricks: &[B]) -> (partitions: Vec<
    Partition<U, B>,
>)
    ensures
        forall|place: int|
            0 <= place < partitions@.len() ==> all_positive(
                bricks_of((#[trigger] partitions@[place]).bricks@),
            ),
        U::obeys_eq_spec() ==> {
            &&& partition_keys(partitions@) == keys::<U, B>(bricks@)
            &&& forall|place: int|
                0 <= place < partitions@.len() ==> bricks_of((#[trigger] partitions@[place]).bricks@)
                    == group::<U, B>(bricks@, place, bricks@.len() as int)
        },
{
    let mut partitions: Vec<Partition<U, B>> = Vec::new();
    let mut n: usize = 0;
    proof {
        assert(partition_keys(partitions@) =~= keys::<U, B>(bricks@.take(0)));
    }
    while n < bricks.len()
        invariant
            n <= bricks.len(),
            forall|place: int|
                0 <= place < partitions@.len() ==> all_positive(
                    bricks_of((#[trigger] partitions@[place]).bricks@),
                ),
            U::obeys_eq_spec() ==> {
                &&& partition_keys(partitions@) == keys::<U, B>(bricks@.take(n as int))
                &&& forall|place: int|
                    0 <= place < partitions@.len() ==> bricks_of(
                        (#[trigger] partitions@[place]).bricks@,
                    ) == group::<U, B>(bricks@, place, n as int)
            },
        decreases bricks.len() - n,
    {
        let brick = bricks[n];

        // Consider each shape's unit brick as its type
        let unit_brick = brick.unit_brick();
        let ghost before = partitions@;
        let place: usize = match find_partition(&partitions, unit_brick) {
            Some(place) => place,
            None => {
                partitions.push(Partition { unit_brick, bricks: Vec::new() });
                proof {
                    assert(partition_keys(partitions@) =~= partition_keys(before).push(unit_brick));
                    assert(bricks_of(partitions@[before.len() as int].bricks@) =~= Seq::<
                        Brick<U, B>,
                    >::empty());
                    assert forall|q: int| 0 <= q < before.len() implies partitions@[q]
                        == before[q] by {}
                    if U::obeys_eq_spec() {
                        lemma_group_beyond::<U, B>(bricks@, before.len() as int, n as int);
                    }
                }
                partitions.len() - 1
            },
        };
        let ghost with_key = partitions@;
        proof {
            lemma_assigned_bound::<U, B>(bricks@, n as int);
            if U::obeys_eq_spec() {
                assert(assigned::<U, B>(bricks@, n as int) == place);
                assert(partition_keys(with_key) == keys::<U, B>(bricks@.take(n + 1)));
            }
        }
        if brick.length() > 0 && brick.width() > 0 && brick.height() > 0 {
            partitions[place].bricks.push(VolumeSortedBrick { brick: Brick::NonUnit(brick) });

            // A square shape turned by a quarter is redundant
            if brick.length() != brick.width() {
                partitions[place].bricks.push(
                    VolumeSortedBrick { brick: Brick::NonUnit(brick.rotate_90()) },
                );
            }
        }
        proof {
            let added = expand::<U, B>(brick);
            assert(partitions@.len() == with_key.len());
            assert forall|q: int| 0 <= q < partitions@.len() && q != place implies partitions@[q]
                == with_key[q] by {}
            assert(partitions@[place as int].unit_brick == with_key[place as int].unit_brick);
            assert(bricks_of(partitions@[place as int].bricks@) =~= bricks_of(
                with_key[place as int].bricks@,
            ) + added);
            assert(partition_keys(partitions@) =~= partition_keys(with_key));
            assert forall|q: int| 0 <= q < partitions@.len() implies all_positive(
                bricks_of((#[trigger] partitions@[q]).bricks@),
            ) by {
                if q == place {
                    let old_list = bricks_of(with_key[q].bricks@);
                    let new_list = bricks_of(partitions@[q].bricks@);
                    assert(all_positive(old_list));
                    assert forall|k: int| 0 <= k < new_list.len() implies positive(
                        brick_dims(#[trigger] new_list[k]),
                    ) by {
                        if k < old_list.len() {
                            assert(new_list[k] == old_list[k]);
                        } else {
                            assert(new_list[k] == added[k - old_list.len()]);
                        }
                    }
                }
            }
            if U::obeys_eq_spec() {
                assert forall|q: int| 0 <= q < partitions@.len() implies bricks_of(
                    (#[trigger] partitions@[q]).bricks@,
                ) == group::<U, B>(bricks@, q, n + 1) by {
                    if q != place {
                        assert(group::<U, B>(bricks@, q, n as int) + Seq::<Brick<U, B>>::empty()
                            =~= group::<U, B>(bricks@, q, n as int));
                    }
                }
            }
        }
        n += 1;
    }
    proof {
        assert(bricks@.take(n as int) =~= bricks@);
    }
    partitions
}

/// Adds the unit brick to each partition and sorts its bricks by volume, the largest
/// first, so that larger bricks are tried first. With the unit brick some brick always
/// fits.
pub fn sort_partitions<U: UnitBrick, B: NonUnitBrick<U>>(partitions: &Vec<Partition<U, B>>) -> (sorted:
    Vec<Partition<U, B>>)
    requires
        forall|place: int|
            0 <= place < partitions@.len() ==> all_positive(
                bricks_of((#[trigger] partitions@[place]).bricks@),
            ),
    ensures
        sorted@.len() == partitions@.len(),
        forall|place: int|
            0 <= place < sorted@.len() ==> {
                let list = bricks_of(partitions@[place].bricks@).push(
                    Brick::Unit(partitions@[place].unit_brick),
                );
                &&& (#[trigger] sorted@[place]).unit_brick == partitions@[place].unit_brick
                &&& bricks_of(sorted@[place].bricks@) == sorted_desc(list, volumes(list))
                &&& all_positive(bricks_of(sorted@[place].bricks@))
                &&& has_unit(bricks_of(sorted@[place].bricks@))
            },
{
    let mut sorted: Vec<Partition<U, B>> = Vec::new();
    let mut place: usize = 0;
    while place < partitions.len()
        invariant
            place <= partitions.len(),
            sorted@.len() == place,
            forall|q: int|
                0 <= q < partitions@.len() ==> all_positive(
                    bricks_of((#[trigger] partitions@[q]).bricks@),
                ),
            forall|q: int|
                0 <= q < place ==> {
                    let list = bricks_of(partitions@[q].bricks@).push(
                        Brick::Unit(partitions@[q].unit_brick),
                    );
                    &&& (#[trigger] sorted@[q]).unit_brick == partitions@[q].unit_brick
                    &&& bricks_of(sorted@[q].bricks@) == sorted_desc(list, volumes(list))
                    &&& all_positive(bricks_of(sorted@[q].bricks@))
                    &&& has_unit(bricks_of(sorted@[q].bricks@))
                },
        decreases partitions.len() - place,
    {
        let unit_brick = partitions[place].unit_brick;
        let mut bricks: Vec<VolumeSortedBrick<U, B>> = Vec::new();
        let mut sizes: Vec<u32> = Vec::new();
        let mut k: usize = 0;
        while k < partitions[place as usize].bricks.len()
            invariant
                place < partitions.len(),
                k <= partitions@[place as int].bricks@.len(),
                bricks@ == partitions@[place as int].bricks@.take(k as int),
                sizes@ == volumes(bricks_of(bricks@)),
            decreases partitions@[place as int].bricks@.len() - k,
        {
            let brick = partitions[place].bricks[k];
            let ghost before = bricks@;
            bricks.push(brick);
            sizes.push(brick.volume());
            proof {
                assert(partitions@[place as int].bricks@.take(k + 1) =~= partitions@[place as int].bricks@.take(
                    k as int,
                ).push(brick));
                assert(bricks_of(bricks@) =~= bricks_of(before).push(brick.brick));
                assert(volumes(bricks_of(bricks@)) =~= volumes(bricks_of(before)).push(
                    brick.brick.volume() as u32,
                ));
            }
            k += 1;
        }

        // Always add the unit brick so that some brick fits
        let unit = VolumeSortedBrick { brick: Brick::<U, B>::Unit(unit_brick) };
        let ghost before = bricks@;
        bricks.push(unit);
        sizes.push(unit.volume());
        let ghost list = bricks_of(bricks@);
        proof {
            assert(partitions@[place as int].bricks@.take(k as int) =~= partitions@[place as int].bricks@);
            assert(list =~= bricks_of(partitions@[place as int].bricks@).push(
                Brick::Unit(unit_brick),
            ));
            assert(sizes@ =~= volumes(list));
        }

        // Sort bricks by volume so that larger bricks are chosen first
        let in_order = sort_desc(&bricks, &sizes);
        proof {
            lemma_sorted_map(
                bricks@,
                sizes@,
                |size: VolumeSortedBrick<U, B>| size.brick,
            );
            let result = bricks_of(in_order@);
            assert(result == sorted_desc(list, volumes(list)));
            assert(all_positive(bricks_of(partitions@[place as int].bricks@)));
            assert forall|m: int| 0 <= m < result.len() implies positive(
                brick_dims(#[trigger] result[m]),
            ) by {
                lemma_sorted_members(list, volumes(list), result[m]);
                assert(result.contains(result[m]));
                let at = choose|at: int| 0 <= at < list.len() && list[at] == result[m];
                if at < list.len() - 1 {
                    assert(list[at] == bricks_of(partitions@[place as int].bricks@)[at]);
                } else {
                    assert(list[at] == Brick::<U, B>::Unit(unit_brick));
                }
            }
            assert(has_unit(result)) by {
                assert(list[list.len() - 1] == Brick::<U, B>::Unit(unit_brick));
                assert(list.contains(Brick::<U, B>::Unit(unit_brick)));
                lemma_sorted_members(list, volumes(list), Brick::<U, B>::Unit(unit_brick));
                let at = choose|at: int|
                    0 <= at < result.len() && result[at] == Brick::<U, B>::Unit(unit_brick);
                assert(result[at] is Unit);
            }
        }
        sorted.push(Partition { unit_brick, bricks: in_order });
        place += 1;
    }
    sorted
}

/// The bricks of the list that are not excluded for the color, in their order. A shape is
/// excluded if the exclusions hold a rotation of it with a color that equals the color.
pub fn allowed_bricks<U: UnitBrick, B: NonUnitBrick<U>, C: Color>(
    sizes: &Vec<VolumeSortedBrick<U, B>>,
    exclusions: &[(B, C)],
    color: C,
) -> (kept: Vec<VolumeSortedBrick<U, B>>)
    requires
        all_positive(bricks_of(sizes@)),
        has_unit(bricks_of(sizes@)),
    ensures
        all_positive(bricks_of(kept@)),
        has_unit(bricks_of(kept@)),
        obeys::<U, B, C>() ==> bricks_of(kept@) == allowed(bricks_of(sizes@), exclusions@, color),
{
    let mut kept: Vec<VolumeSortedBrick<U, B>> = Vec::new();
    let mut n: usize = 0;
    let ghost given = bricks_of(sizes@);
    proof {
        assert(given.take(0) =~= Seq::<Brick<U, B>>::empty());
        assert(bricks_of(kept@) =~= Seq::<Brick<U, B>>::empty());
    }
    while n < sizes.len()
        invariant
            n <= sizes.len(),
            given == bricks_of(sizes@),
            all_positive(given),
            all_positive(bricks_of(kept@)),
            forall|k: int|
                0 <= k < n && #[trigger] given[k] is Unit ==> bricks_of(kept@).contains(given[k]),
            obeys::<U, B, C>() ==> bricks_of(kept@) == allowed(given.take(n as int), exclusions@, color),
        decreases sizes.len() - n,
    {
        let size = sizes[n];
        let ghost before = kept@;
        let mut is_excluded = false;
        match size.brick {
            Brick::NonUnit(shape) => {
                let mut k: usize = 0;
                while k < exclusions.len()
                    invariant
                        k <= exclusions.len(),
                        obeys::<U, B, C>() ==> is_excluded == (exists|m: int|
                            0 <= m < k && color.eq_spec(&(#[trigger] exclusions@[m]).1)
                                && exclusions@[m].0.spec_is_rotation_of(&shape)),
                    decreases exclusions.len() - k,
                {
                    let exclusion = exclusions[k];
                    if color == exclusion.1 && exclusion.0.is_rotation_of(&shape) {
                        is_excluded = true;
                    }
                    k += 1;
                }
            },
            Brick::Unit(_) => {},
        }
        if !is_excluded {
            kept.push(size);
        }
        proof {
            assert(given[n as int] == size.brick);
            assert(given.take(n + 1).drop_last() =~= given.take(n as int));
            assert(given.take(n + 1).last() == size.brick);
            if !is_excluded {
                assert(bricks_of(kept@) =~= bricks_of(before).push(size.brick));
                assert(bricks_of(kept@)[before.len() as int] == size.brick);
            } else {
                assert(bricks_of(kept@) =~= bricks_of(before));
            }
            assert forall|k: int|
                0 <= k < n + 1 && #[trigger] given[k] is Unit implies bricks_of(kept@).contains(
                given[k],
            ) by {
                if k < n {
                    assert(bricks_of(before).contains(given[k]));
                    let at = choose|at: int|
                        0 <= at < bricks_of(before).len() && bricks_of(before)[at] == given[k];
                    assert(bricks_of(kept@)[at] == given[k]);
                }
            }
            assert forall|k: int| 0 <= k < bricks_of(kept@).len() implies positive(
                brick_dims(#[trigger] bricks_of(kept@)[k]),
            ) by {
                if k < before.len() {
                    assert(bricks_of(kept@)[k] == bricks_of(before)[k]);
                }
            }
            if obeys::<U, B, C>() {
                assert(is_excluded == excluded(size.brick, exclusions@, color));
                assert(bricks_of(before) + seq![size.brick] =~= bricks_of(before).push(size.brick));
                assert(bricks_of(before) + Seq::<Brick<U, B>>::empty() =~= bricks_of(before));
            }
        }
        n += 1;
    }
    proof {
        assert(given.take(n as int) =~= given);
        let k = choose|k: int| 0 <= k < given.len() && #[trigger] given[k] is Unit;
        assert(bricks_of(kept@).contains(given[k]));
        let at = choose|at: int| 0 <= at < bricks_of(kept@).len() && bricks_of(kept@)[at] == given[k];
        assert(bricks_of(kept@)[at] is Unit);
    }
    kept
}

/// A shape of the catalog is tried in one orientation if it is as long as wide, and in
/// two, itself and itself turned by a quarter, if it is not; a shape with an extent of
/// zero is not tried at all. So a square shape never gives both itself and its
/// rotation.
pub proof fn orientations<U: UnitBrick, B: NonUnitBrick<U>>(brick: B)
    ensures
        !positive(brick_dims(Brick::<U, B>::NonUnit(brick))) ==> expand::<U, B>(brick).len() == 0,
        positive(brick_dims(Brick::<U, B>::NonUnit(brick))) && brick.spec_length()
            == brick.spec_width() ==> expand::<U, B>(brick) == seq![Brick::<U, B>::NonUnit(brick)],
        positive(brick_dims(Brick::<U, B>::NonUnit(brick))) && brick.spec_length()
            != brick.spec_width() ==> expand::<U, B>(brick) == seq![
            Brick::<U, B>::NonUnit(brick),
            Brick::<U, B>::NonUnit(brick.spec_rotate_90()),
        ],
{
}

/// The bricks that are allowed for a color are the bricks of the list that are not
/// excluded for it: an orientation of a shape is tried unless it is excluded.
pub proof fn allowed_members<U: UnitBrick, B: NonUnitBrick<U>, C: Color>(
    bricks: Seq<Brick<U, B>>,
    exclusions: Seq<(B, C)>,
    color: C,
    brick: Brick<U, B>,
)
    ensures
        allowed(bricks, exclusions, color).contains(brick) <==> bricks.contains(brick) && !excluded(
            brick,
            exclusions,
            color,
        ),
    decreases bricks.len(),
{
    if bricks.len() > 0 {
        let shorter = bricks.drop_last();
        let last = bricks.last();
        allowed_members(shorter, exclusions, color, brick);
        let before = allowed(shorter, exclusions, color);
        let after = allowed(bricks, exclusions, color);
        if after.contains(brick) {
            let k = choose|k: int| 0 <= k < after.len() && after[k] == brick;
            if k < before.len() {
                assert(before[k] == brick);
                let m = choose|m: int| 0 <= m < shorter.len() && shorter[m] == brick;
                assert(bricks[m] == brick);
            } else {
                assert(brick == last);
                assert(bricks[bricks.len() - 1] == brick);
            }
        }
        if bricks.contains(brick) && !excluded(brick, exclusions, color) {
            let m = choose|m: int| 0 <= m < bricks.len() && bricks[m] == brick;
            if m < shorter.len() {
                assert(shorter[m] == brick);
                let k = choose|k: int| 0 <= k < before.len() && before[k] == brick;
                assert(after[k] == brick);
            } else {
                assert(after[before.len() as int] == brick);
            }
        }
    }
}

/// A brick of a group is an orientation of a shape of the catalog.
pub proof fn lemma_group_members<U: UnitBrick, B: NonUnitBrick<U>>(
    catalog: Seq<B>,
    place: int,
    n: int,
    brick: Brick<U, B>,
)
    requires
        0 <= n <= catalog.len(),
        group::<U, B>(catalog, place, n).contains(brick),
    ensures
        exists|m: int| 0 <= m < n && #[trigger] expand::<U, B>(catalog[m]).contains(brick),
    decreases n,
{
    if n > 0 {
        let before = group::<U, B>(catalog, place, n - 1);
        let whole = group::<U, B>(catalog, place, n);
        let k = choose|k: int| 0 <= k < whole.len() && whole[k] == brick;
        if k < before.len() {
            assert(before[k] == brick);
            lemma_group_members::<U, B>(catalog, place, n - 1, brick);
        } else {
            assert(expand::<U, B>(catalog[n - 1])[k - before.len()] == brick);
            assert(expand::<U, B>(catalog[n - 1]).contains(brick));
        }
    }
}

/// Whether the shape fills one voxel or none: no extent is larger than one.
pub open spec fn is_small<U: UnitBrick, B: NonUnitBrick<U>>(brick: B) -> bool {
    brick.spec_length() <= 1 && brick.spec_width() <= 1 && brick.spec_height() <= 1
}

/// Where no shape of the catalog is larger than 1x1x1, every brick that is tried is
/// 1x1x1.
pub proof fn lemma_small_candidates<U: UnitBrick, B: NonUnitBrick<U>, C: Color>(
    catalog: Seq<B>,
    exclusions: Seq<(B, C)>,
    unit_brick: U,
    color: C,
    brick: Brick<U, B>,
)
    requires
        forall|n: int| 0 <= n < catalog.len() ==> is_small::<U, B>(#[trigger] catalog[n]),
        candidates(catalog, exclusions, unit_brick, color) matches Some(tried) && tried.contains(
            brick,
        ),
    ensures
        brick.is_unit_size(),
{
    let place = first_key(keys::<U, B>(catalog), unit_brick).unwrap();
    let list = group::<U, B>(catalog, place, catalog.len() as int).push(
        Brick::Unit(keys::<U, B>(catalog)[place]),
    );
    allowed_members(sizes::<U, B>(catalog, place), exclusions, color, brick);
    lemma_sorted_members(list, volumes(list), brick);
    let at = choose|at: int| 0 <= at < list.len() && list[at] == brick;
    if at < list.len() - 1 {
        assert(group::<U, B>(catalog, place, catalog.len() as int)[at] == brick);
        assert(group::<U, B>(catalog, place, catalog.len() as int).contains(brick));
        lemma_group_members::<U, B>(catalog, place, catalog.len() as int, brick);
        let m = choose|m: int|
            0 <= m < catalog.len() && #[trigger] expand::<U, B>(catalog[m]).contains(brick);
        assert(is_small::<U, B>(catalog[m]));
        let k = choose|k: int|
            0 <= k < expand::<U, B>(catalog[m]).len() && expand::<U, B>(catalog[m])[k] == brick;
    }
}

} // verus!
