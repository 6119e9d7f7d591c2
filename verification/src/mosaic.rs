//! Mosaics: the bricks that depict an image, section by section and chunk by chunk.

use vstd::prelude::*;
use crate::brick::{
    Brick,
    NonUnitBrick,
    PlacedBrick,
    UnitBrick,
    count_filling,
    lemma_count_filling_add,
    lemma_total_volume_add,
    total_volume,
};
use crate::error::MosaicError;
use crate::pixels::{Image, Palette, Pixels};
use crate::scene::{Scene, tile_done, voxel_done};
use crate::slab::{Slab, slab_height_of};
use crate::catalog::{
    Partition,
    all_positive,
    allowed_bricks,
    candidates,
    find_partition,
    group_bricks,
    has_unit,
    keys,
    obeys,
    partition_keys,
    sizes,
    sort_partitions,
};
use crate::chunk::{Chunk, bricks_of};
use crate::packing::{greedy, layers};
use vstd::std_specs::cmp::PartialEqSpec;
use crate::color::Color;
use crate::flood::{Found, covered, disjoint, lemma_covered_same_shapes, same_shape, same_shapes};
use crate::geometry::{Cell, lemma_step_counted, lemma_step_inside, steps};

verus! {

/// The side of a section: sections are cubes of at most this many voxels a side, so
/// that positions inside a section fit in a byte.
pub const SECTION_SIZE: u32 = 255;

/// The tile in row `i` and column `j` of the tiles of side `size` that span an image of
/// `length` by `width`: where it begins, and its length and width.
pub open spec fn tile(length: int, width: int, size: int, i: int, j: int) -> (u32, u32, u8, u8) {
    (
        (i * size) as u32,
        (j * size) as u32,
        (if length - i * size < size {
            length - i * size
        } else {
            size
        }) as u8,
        (if width - j * size < size {
            width - j * size
        } else {
            size
        }) as u8,
    )
}

/// The tiles of side `section_size` that span an image of `image_length` by
/// `image_width`, row after row along l, each row along w. The tiles at the far edges
/// are as long and as wide as what is left of the image.
pub fn make_sections(image_length: u32, image_width: u32, section_size: u32) -> (sections: Vec<
    (u32, u32, u8, u8),
>)
    requires
        1 <= section_size <= 255,
    ensures
        sections@.len() == steps(image_length as int, section_size as int) * steps(
            image_width as int,
            section_size as int,
        ),
        forall|i: int, j: int|
            0 <= i < steps(image_length as int, section_size as int) && 0 <= j < steps(
                image_width as int,
                section_size as int,
            ) ==> sections@[i * steps(image_width as int, section_size as int) + j] == #[trigger] tile(
                image_length as int,
                image_width as int,
                section_size as int,
                i,
                j,
            ),
{
    let ghost rows = steps(image_length as int, section_size as int);
    let ghost per_row = steps(image_width as int, section_size as int);
    let ghost size = section_size as int;
    let mut section_l: u32 = 0;
    let mut sections: Vec<(u32, u32, u8, u8)> = Vec::new();
    let ghost mut i: int = 0;
    proof {
        assert(0 * per_row == 0) by (nonlinear_arith);
        assert(0 * size == 0) by (nonlinear_arith);
        if image_length > 0 {
            lemma_step_counted(image_length as int, size, 0);
        }
    }
    while section_l < image_length
        invariant
            1 <= section_size <= 255,
            size == section_size,
            rows == steps(image_length as int, size),
            per_row == steps(image_width as int, size),
            0 <= i <= rows,
            0 <= per_row,
            i < rows ==> section_l == i * size,
            i == rows ==> section_l >= image_length,
            section_l <= image_length,
            sections@.len() == i * per_row,
            forall|a: int, b: int|
                0 <= a < i && 0 <= b < per_row ==> sections@[a * per_row + b] == #[trigger] tile(
                    image_length as int,
                    image_width as int,
                    size,
                    a,
                    b,
                ),
        decreases image_length - section_l,
    {
        let section_length: u32 = if image_length - section_l < section_size {
            image_length - section_l
        } else {
            section_size
        };
        let mut section_w: u32 = 0;
        let ghost mut j: int = 0;
        proof {
            assert(0 * size == 0) by (nonlinear_arith);
            if image_width > 0 {
                lemma_step_counted(image_width as int, size, 0);
            }
            assert(i < rows);
        }
        while section_w < image_width
            invariant
                1 <= section_size <= 255,
                size == section_size,
                rows == steps(image_length as int, size),
                per_row == steps(image_width as int, size),
                0 <= i < rows,
                0 <= j <= per_row,
                section_l == i * size,
                section_l < image_length,
                section_length == (if image_length - section_l < section_size {
                    image_length - section_l
                } else {
                    section_size as int
                }),
                j < per_row ==> section_w == j * size,
                j == per_row ==> section_w >= image_width,
                section_w <= image_width,
                sections@.len() == i * per_row + j,
                forall|a: int, b: int|
                    0 <= a < i && 0 <= b < per_row ==> sections@[a * per_row + b] == #[trigger] tile(
                        image_length as int,
                        image_width as int,
                        size,
                        a,
                        b,
                    ),
                forall|b: int|
                    0 <= b < j ==> sections@[i * per_row + b] == #[trigger] tile(
                        image_length as int,
                        image_width as int,
                        size,
                        i,
                        b,
                    ),
            decreases image_width - section_w,
        {
            let section_width: u32 = if image_width - section_w < section_size {
                image_width - section_w
            } else {
                section_size
            };
            let ghost before = sections@;
            sections.push((section_l, section_w, section_length as u8, section_width as u8));
            proof {
                assert(j < per_row);
                assert forall|a: int, b: int| 0 <= a < i && 0 <= b < per_row implies sections@[a
                    * per_row + b] == #[trigger] tile(
                    image_length as int,
                    image_width as int,
                    size,
                    a,
                    b,
                ) by {
                    assert(a * per_row + b < i * per_row) by (nonlinear_arith)
                        requires
                            0 <= a < i,
                            0 <= b < per_row,
                    ;
                    assert(sections@[a * per_row + b] == before[a * per_row + b]);
                }
                assert forall|b: int| 0 <= b < j + 1 implies sections@[i * per_row + b]
                    == #[trigger] tile(image_length as int, image_width as int, size, i, b) by {
                    if b < j {
                        assert(sections@[i * per_row + b] == before[i * per_row + b]);
                    }
                }
                assert((j + 1) * size == j * size + size) by (nonlinear_arith);
                if section_w + section_width < image_width {
                    lemma_step_counted(image_width as int, size, j + 1);
                } else {
                    if j + 1 < per_row {
                        lemma_step_inside(image_width as int, size, j + 1);
                    }
                }
            }
            section_w += section_width;
            proof {
                j = j + 1;
            }
        }
        proof {
            assert(j == per_row) by {
                if j < per_row {
                    lemma_step_inside(image_width as int, size, j);
                }
            }
            assert((i + 1) * per_row == i * per_row + per_row) by (nonlinear_arith);
            assert((i + 1) * size == i * size + size) by (nonlinear_arith);
            if section_l + section_length < image_length {
                lemma_step_counted(image_length as int, size, i + 1);
            } else {
                if i + 1 < rows {
                    lemma_step_inside(image_length as int, size, i + 1);
                }
            }
            assert forall|a: int, b: int| 0 <= a < i + 1 && 0 <= b < per_row implies sections@[a
                * per_row + b] == #[trigger] tile(
                image_length as int,
                image_width as int,
                size,
                a,
                b,
            ) by {}
        }
        section_l += section_length;
        proof {
            i = i + 1;
        }
    }
    proof {
        assert(i == rows) by {
            if i < rows {
                lemma_step_inside(image_length as int, size, i);
            }
        }
    }
    sections
}

/// The chunks of one section, which begins at the voxel (l, w, h) of the mosaic.
pub struct Section<U, B, C> {
    pub(crate) l: u32,
    pub(crate) w: u32,
    pub(crate) h: u32,
    pub(crate) chunks: Vec<Chunk<U, B, C>>,
    pub(crate) slab: Ghost<Slab<U, C>>,
    pub(crate) founds: Ghost<Seq<Found<U, C>>>,
}

impl<U: UnitBrick, B: NonUnitBrick<U>, C: Color> Section<U, B, C> {
    /// The voxel of the mosaic at which the section begins.
    pub closed spec fn origin(&self) -> Cell {
        (self.l as int, self.w as int, self.h as int)
    }

    /// The chunks of the section.
    pub closed spec fn spec_chunks(&self) -> Seq<Chunk<U, B, C>> {
        self.chunks@
    }

    /// The tables of the slab of which the section was built.
    pub closed spec fn spec_slab(&self) -> Slab<U, C> {
        self.slab@
    }

    /// The regions that were found in the slab, in the order in which they were found.
    pub closed spec fn spec_founds(&self) -> Seq<Found<U, C>> {
        self.founds@
    }

    /// Whether the slab of the section is the part of the scene that lies in the cube of
    /// 255 voxels a side at the section's corner: it holds the voxels of the scene that
    /// lie there, each with its unit brick and its color.
    pub open spec fn matches(&self, scene: Scene<U, B, C>) -> bool {
        &&& forall|v: Cell| #[trigger]
            self.spec_slab().has(self.local(v)) <==> scene.has(v) && self.origin().0 <= v.0
                < self.origin().0 + 255 && self.origin().1 <= v.1 < self.origin().1 + 255
                && self.origin().2 <= v.2 < self.origin().2 + 255
        &&& forall|v: Cell| #[trigger]
            self.spec_slab().has(self.local(v)) ==> self.spec_slab().brick_at(self.local(v)) == (
            scene.brick_at)(v).spec_unit_brick() && self.spec_slab().color_at(
                self.local(v).0,
                self.local(v).1,
            ) == (scene.color_at)(v.0, v.1)
    }

    /// Voxel `v` of the mosaic, counted from the section's corner.
    pub open spec fn local(&self, v: Cell) -> Cell {
        (v.0 - self.origin().0, v.1 - self.origin().1, v.2 - self.origin().2)
    }

    /// Whether one of the section's chunks holds voxel `v` of the mosaic.
    pub open spec fn holds(&self, v: Cell) -> bool {
        covered(self.spec_chunks(), self.local(v))
    }

    /// The section begins at multiples of the section size, and its chunks are well
    /// formed, lie below the largest coordinate and share no voxel.
    pub open spec fn wf(&self) -> bool {
        &&& self.origin().0 % 255 == 0
        &&& self.origin().1 % 255 == 0
        &&& self.origin().2 % 255 == 0
        &&& 0 <= self.origin().0
        &&& 0 <= self.origin().1
        &&& 0 <= self.origin().2
        &&& forall|k: int|
            0 <= k < self.spec_chunks().len() ==> (#[trigger] self.spec_chunks()[k]).wf()
                && self.spec_chunks()[k].fits_at(self.origin())
        &&& disjoint(self.spec_chunks())
        &&& self.spec_slab().wf()
        &&& forall|c: Cell| #[trigger] covered(self.spec_chunks(), c) <==> self.spec_slab().has(c)
        &&& self.spec_slab().regions_ok(self.spec_chunks(), self.spec_founds())
    }

    /// Whether every chunk of the section is filled with unit bricks.
    pub open spec fn all_units(&self) -> bool {
        forall|k: int|
            0 <= k < self.spec_chunks().len() ==> (#[trigger] self.spec_chunks()[k]).is_units()
    }

    /// Whether every chunk that holds voxel `v` has the unit brick and the color that the
    /// scene has there.
    pub open spec fn agrees_at(&self, scene: Scene<U, B, C>, v: Cell) -> bool {
        forall|k: int|
            0 <= k < self.spec_chunks().len() && #[trigger] self.spec_chunks()[k].covers(
                self.local(v),
            ) ==> scene.agrees(
                v,
                self.spec_chunks()[k].spec_unit_brick(),
                self.spec_chunks()[k].spec_color(),
            )
    }

    /// The placed bricks of the section's first `n` chunks.
    pub open spec fn placements_upto(&self, n: int) -> Seq<PlacedBrick<U, B, C>>
        decreases n,
    {
        if n <= 0 {
            Seq::empty()
        } else {
            self.placements_upto(n - 1) + self.spec_chunks()[n - 1].placements(self.origin())
        }
    }

    /// The placed bricks of the section.
    pub open spec fn placements(&self) -> Seq<PlacedBrick<U, B, C>> {
        self.placements_upto(self.spec_chunks().len() as int)
    }

    /// Of the placed bricks of the first `n` chunks, exactly one fills each voxel that one
    /// of these chunks holds, and none fills any other voxel.
    pub proof fn lemma_count_upto(&self, n: int, v: Cell)
        requires
            self.wf(),
            0 <= n <= self.spec_chunks().len(),
        ensures
            count_filling(self.placements_upto(n), v.0, v.1, v.2) == (if covered(
                self.spec_chunks().take(n),
                self.local(v),
            ) {
                1nat
            } else {
                0nat
            }),
        decreases n,
    {
        let chunks = self.spec_chunks();
        if n > 0 {
            self.lemma_count_upto(n - 1, v);
            let chunk = chunks[n - 1];
            chunk.lemma_placements_count(self.origin(), v);
            lemma_count_filling_add(
                self.placements_upto(n - 1),
                chunk.placements(self.origin()),
                v.0,
                v.1,
                v.2,
            );
            assert(chunks.take(n) =~= chunks.take(n - 1).push(chunk));
            crate::flood::lemma_covered_push(chunks.take(n - 1), chunk, self.local(v));
            if covered(chunks.take(n - 1), self.local(v)) && chunk.covers(self.local(v)) {
                let i = choose|i: int|
                    0 <= i < chunks.take(n - 1).len() && #[trigger] chunks.take(n - 1)[i].covers(
                        self.local(v),
                    );
                assert(chunks[i].covers(self.local(v)));
                assert(chunks[n - 1].covers(self.local(v)));
            }
        } else {
            assert(!covered(chunks.take(n), self.local(v)));
        }
    }

    /// Of the section's placed bricks, exactly one fills each voxel that the section
    /// holds, and none fills any other voxel.
    pub proof fn lemma_count(&self, v: Cell)
        requires
            self.wf(),
        ensures
            count_filling(self.placements(), v.0, v.1, v.2) == (if self.holds(v) {
                1nat
            } else {
                0nat
            }),
    {
        self.lemma_count_upto(self.spec_chunks().len() as int, v);
        assert(self.spec_chunks().take(self.spec_chunks().len() as int) =~= self.spec_chunks());
    }

    /// Each of the placed bricks of the first `n` chunks is a brick of one of these
    /// chunks, placed.
    pub proof fn lemma_placement_source(&self, n: int, i: int) -> (source: (int, int))
        requires
            0 <= n <= self.spec_chunks().len(),
            0 <= i < self.placements_upto(n).len(),
        ensures
            0 <= source.0 < n,
            0 <= source.1 < self.spec_chunks()[source.0].spec_bricks().len(),
            self.placements_upto(n)[i] == self.spec_chunks()[source.0].place(
                self.origin(),
                self.spec_chunks()[source.0].spec_bricks()[source.1],
            ),
        decreases n,
    {
        let before = self.placements_upto(n - 1);
        if i < before.len() {
            self.lemma_placement_source(n - 1, i)
        } else {
            (n - 1, i - before.len())
        }
    }

    /// The placed bricks of the first `n` chunks of two sections fill as many voxels if
    /// the bricks of each chunk of the one fill as many as those of the other.
    pub proof fn lemma_same_volume_upto(&self, other: Self, n: int)
        requires
            0 <= n <= self.spec_chunks().len(),
            self.spec_chunks().len() == other.spec_chunks().len(),
            forall|k: int|
                0 <= k < self.spec_chunks().len() ==> (#[trigger] self.spec_chunks()[k]).volume()
                    == other.spec_chunks()[k].volume(),
        ensures
            total_volume(self.placements_upto(n)) == total_volume(other.placements_upto(n)),
        decreases n,
    {
        if n > 0 {
            self.lemma_same_volume_upto(other, n - 1);
            self.spec_chunks()[n - 1].lemma_placements_volume(self.origin());
            other.spec_chunks()[n - 1].lemma_placements_volume(other.origin());
            lemma_total_volume_add(
                self.placements_upto(n - 1),
                self.spec_chunks()[n - 1].placements(self.origin()),
            );
            lemma_total_volume_add(
                other.placements_upto(n - 1),
                other.spec_chunks()[n - 1].placements(other.origin()),
            );
        }
    }

    /// A voxel that the section holds lies in the cube of the section.
    pub proof fn lemma_holds_near(&self, v: Cell)
        requires
            self.wf(),
            self.holds(v),
        ensures
            self.origin().0 <= v.0 < self.origin().0 + 255,
            self.origin().1 <= v.1 < self.origin().1 + 255,
            self.origin().2 <= v.2 < self.origin().2 + 255,
            self.origin() == (255 * (v.0 / 255), 255 * (v.1 / 255), 255 * (v.2 / 255)),
    {
        let k = choose|k: int|
            0 <= k < self.spec_chunks().len() && #[trigger] self.spec_chunks()[k].covers(
                self.local(v),
            );
        self.spec_chunks()[k].lemma_covers_near(self.local(v));
    }

    /// Where the section begins along l.
    pub fn l(&self) -> (r: u32)
        ensures
            r == self.origin().0,
    {
        self.l
    }

    /// Where the section begins along w.
    pub fn w(&self) -> (r: u32)
        ensures
            r == self.origin().1,
    {
        self.w
    }

    /// Where the section begins along h.
    pub fn h(&self) -> (r: u32)
        ensures
            r == self.origin().2,
    {
        self.h
    }

    /// The chunks of the section.
    pub fn chunks(&self) -> (r: &Vec<Chunk<U, B, C>>)
        ensures
            r@ == self.spec_chunks(),
    {
        &self.chunks
    }

    /// The section's placed bricks.
    pub fn placed(&self) -> (r: Vec<PlacedBrick<U, B, C>>)
        requires
            self.wf(),
        ensures
            r@ == self.placements(),
    {
        let mut r: Vec<PlacedBrick<U, B, C>> = Vec::new();
        let mut k: usize = 0;
        while k < self.chunks.len()
            invariant
                self.wf(),
                k <= self.chunks.len(),
                r@ == self.placements_upto(k as int),
            decreases self.chunks.len() - k,
        {
            let mut bricks = self.chunks[k].placed(self.l, self.w, self.h);
            r.append(&mut bricks);
            k += 1;
        }
        r
    }
}

/// Whether the chunk `after` is the chunk `before` with its bricks replaced: it has the
/// same unit brick, color, position and columns; and, where `==` and `is_rotation_of`
/// follow their specifications, its bricks are what the greedy rule places from the
/// candidates of the catalog, or the bricks of `before` if the catalog has no shape
/// with the chunk's unit brick.
pub open spec fn chunk_reduced<U: UnitBrick, B: NonUnitBrick<U>, C: Color>(
    after: Chunk<U, B, C>,
    before: Chunk<U, B, C>,
    catalog: Seq<B>,
    exclusions: Seq<(B, C)>,
) -> bool {
    &&& after.wf()
    &&& same_shape(before, after)
    &&& after.volume() == before.volume()
    &&& obeys::<U, B, C>() ==> match candidates(
        catalog,
        exclusions,
        before.spec_unit_brick(),
        before.spec_color(),
    ) {
        Some(tried) => greedy(
            before.cells(),
            tried,
            layers(tried, before.dims().2),
            after.spec_bricks(),
        ),
        None => after.spec_bricks() == before.spec_bricks(),
    }
}

/// Whether the section `after` is the section `before` with the bricks of each chunk
/// replaced.
pub open spec fn section_reduced<U: UnitBrick, B: NonUnitBrick<U>, C: Color>(
    after: Section<U, B, C>,
    before: Section<U, B, C>,
    catalog: Seq<B>,
    exclusions: Seq<(B, C)>,
) -> bool {
    &&& after.wf()
    &&& after.origin() == before.origin()
    &&& after.spec_slab() == before.spec_slab()
    &&& after.spec_founds() == before.spec_founds()
    &&& after.spec_chunks().len() == before.spec_chunks().len()
    &&& forall|k: int|
        0 <= k < after.spec_chunks().len() ==> chunk_reduced(
            #[trigger] after.spec_chunks()[k],
            before.spec_chunks()[k],
            catalog,
            exclusions,
        )
}

/// Whether the partitions are those of the catalog: each holds bricks of positive
/// extents and the unit brick; and, where `==` follows its specification, they are the
/// partitions of the catalog's keys, each with the bricks that are tried for its key.
pub open spec fn partitions_of<U: UnitBrick, B: NonUnitBrick<U>>(
    partitions: Seq<Partition<U, B>>,
    catalog: Seq<B>,
) -> bool {
    &&& forall|place: int|
        0 <= place < partitions.len() ==> all_positive(
            bricks_of((#[trigger] partitions[place]).bricks@),
        ) && has_unit(bricks_of(partitions[place].bricks@))
    &&& U::obeys_eq_spec() ==> {
        &&& partition_keys(partitions) == keys::<U, B>(catalog)
        &&& forall|place: int|
            0 <= place < partitions.len() ==> bricks_of((#[trigger] partitions[place]).bricks@)
                == sizes::<U, B>(catalog, place)
    }
}

/// Replaces the bricks of a chunk by what the greedy rule places from the bricks that
/// the catalog offers for the chunk's unit brick and color. A chunk for whose unit
/// brick the catalog has no shape stays as it is.
fn reduce_chunk<U: UnitBrick, B: NonUnitBrick<U>, C: Color>(
    chunk: Chunk<U, B, C>,
    bricks_by_type: &Vec<Partition<U, B>>,
    exclusions: &[(B, C)],
    Ghost(catalog): Ghost<Seq<B>>,
) -> (r: Chunk<U, B, C>)
    requires
        chunk.wf(),
        partitions_of(bricks_by_type@, catalog),
    ensures
        chunk_reduced(r, chunk, catalog, exclusions@),
{
    match find_partition(bricks_by_type, chunk.unit_brick()) {
        Some(place) => {
            let bricks_by_height = allowed_bricks(
                &bricks_by_type[place].bricks,
                exclusions,
                chunk.color(),
            );
            chunk.reduce_bricks(&bricks_by_height)
        },
        None => chunk,
    }
}

/// Replaces the bricks of each chunk of a section.
fn reduce_section<U: UnitBrick, B: NonUnitBrick<U>, C: Color>(
    section: Section<U, B, C>,
    bricks_by_type: &Vec<Partition<U, B>>,
    exclusions: &[(B, C)],
    Ghost(catalog): Ghost<Seq<B>>,
) -> (r: Section<U, B, C>)
    requires
        section.wf(),
        partitions_of(bricks_by_type@, catalog),
    ensures
        section_reduced(r, section, catalog, exclusions@),
{
    let l = section.l;
    let w = section.w;
    let h = section.h;
    let slab = section.slab;
    let founds = section.founds;
    let ghost given = section.chunks@;
    proof {
        assert forall|k: int| 0 <= k < given.len() implies (#[trigger] given[k]).wf() by {
            assert(section.spec_chunks()[k].wf());
        }
        assert(given.take(given.len() as int) =~= given);
    }
    let mut rest = section.chunks;
    let mut reversed: Vec<Chunk<U, B, C>> = Vec::new();
    while rest.len() > 0
        invariant
            partitions_of(bricks_by_type@, catalog),
            rest@ == given.take(rest@.len() as int),
            rest@.len() + reversed@.len() == given.len(),
            forall|k: int| 0 <= k < given.len() ==> (#[trigger] given[k]).wf(),
            forall|m: int|
                0 <= m < reversed@.len() ==> chunk_reduced(
                    #[trigger] reversed@[m],
                    given[given.len() - 1 - m],
                    catalog,
                    exclusions@,
                ),
        decreases rest@.len(),
    {
        let ghost count = rest@.len();
        let chunk = rest.pop().unwrap();
        proof {
            assert(chunk == given[count - 1]);
            assert(rest@ =~= given.take(count - 1));
        }
        let reduced = reduce_chunk(chunk, bricks_by_type, exclusions, Ghost(catalog));
        reversed.push(reduced);
    }
    let ghost backwards = reversed@;
    let mut chunks: Vec<Chunk<U, B, C>> = Vec::new();
    while reversed.len() > 0
        invariant
            backwards.len() == given.len(),
            reversed@ == backwards.take(reversed@.len() as int),
            reversed@.len() + chunks@.len() == given.len(),
            forall|k: int|
                0 <= k < chunks@.len() ==> #[trigger] chunks@[k] == backwards[given.len() - 1 - k],
        decreases reversed@.len(),
    {
        let ghost count = reversed@.len();
        let chunk = reversed.pop().unwrap();
        proof {
            assert(chunk == backwards[count - 1]);
            assert(reversed@ =~= backwards.take(count - 1));
        }
        chunks.push(chunk);
    }
    let r = Section { l, w, h, chunks, slab, founds };
    proof {
        assert(same_shapes(section.spec_chunks(), r.spec_chunks())) by {
            assert forall|k: int| 0 <= k < r.spec_chunks().len() implies same_shape(
                section.spec_chunks()[k],
                #[trigger] r.spec_chunks()[k],
            ) by {
                assert(r.spec_chunks()[k] == backwards[given.len() - 1 - k]);
                assert(chunk_reduced(
                    backwards[given.len() - 1 - k],
                    given[k],
                    catalog,
                    exclusions@,
                ));
            }
        }
        r.spec_slab().lemma_regions_same_shape(
            section.spec_chunks(),
            r.spec_chunks(),
            r.spec_founds(),
        );
        assert forall|c: Cell| #[trigger] covered(r.spec_chunks(), c) <==> r.spec_slab().has(c) by {
            lemma_covered_same_shapes(section.spec_chunks(), r.spec_chunks(), c);
            assert(covered(section.spec_chunks(), c) <==> section.spec_slab().has(c));
        }
        assert forall|k: int| 0 <= k < r.spec_chunks().len() implies chunk_reduced(
            #[trigger] r.spec_chunks()[k],
            section.spec_chunks()[k],
            catalog,
            exclusions@,
        ) by {
            assert(r.spec_chunks()[k] == backwards[given.len() - 1 - k]);
        }
        assert forall|k: int| 0 <= k < r.spec_chunks().len() implies (
        #[trigger] r.spec_chunks()[k]).wf() && r.spec_chunks()[k].fits_at(r.origin()) by {
            assert(chunk_reduced(r.spec_chunks()[k], section.spec_chunks()[k], catalog, exclusions@));
            assert(section.spec_chunks()[k].fits_at(section.origin()));
        }
        assert(disjoint(r.spec_chunks())) by {
            assert forall|a: int, b: int, c: Cell|
                0 <= a < r.spec_chunks().len() && 0 <= b < r.spec_chunks().len() && a != b implies !(
            #[trigger] r.spec_chunks()[a].covers(c) && #[trigger] r.spec_chunks()[b].covers(c)) by {
                assert(chunk_reduced(
                    r.spec_chunks()[a],
                    section.spec_chunks()[a],
                    catalog,
                    exclusions@,
                ));
                assert(chunk_reduced(
                    r.spec_chunks()[b],
                    section.spec_chunks()[b],
                    catalog,
                    exclusions@,
                ));
                assert(r.spec_chunks()[a].covers(c) == section.spec_chunks()[a].covers(c));
                assert(r.spec_chunks()[b].covers(c) == section.spec_chunks()[b].covers(c));
            }
        }
    }
    r
}

/// Whether one of the sections holds voxel `v`.
pub open spec fn any_holds<U: UnitBrick, B: NonUnitBrick<U>, C: Color>(
    sections: Seq<Section<U, B, C>>,
    v: Cell,
) -> bool {
    exists|s: int| 0 <= s < sections.len() && #[trigger] sections[s].holds(v)
}

/// Whether the sections are those of the tiles before tile (i, j) and, for that tile,
/// of the slabs below height `h`: they hold the voxels of the scene that lie there,
/// each voxel in a chunk that has its unit brick and color.
pub open spec fn built<U: UnitBrick, B: NonUnitBrick<U>, C: Color>(
    sections: Seq<Section<U, B, C>>,
    scene: Scene<U, B, C>,
    i: int,
    j: int,
    h: int,
) -> bool {
    &&& forall|s: int|
        0 <= s < sections.len() ==> (#[trigger] sections[s]).wf() && sections[s].all_units()
            && voxel_done(sections[s].origin(), i, j, h) && scene.in_image(
            sections[s].origin().0,
            sections[s].origin().1,
        )
    &&& forall|s: int, t: int|
        0 <= s < sections.len() && 0 <= t < sections.len() && s != t ==> (
        #[trigger] sections[s]).origin() != (#[trigger] sections[t]).origin()
    &&& forall|v: Cell| #[trigger] any_holds(sections, v) <==> scene.has(v) && voxel_done(v, i, j, h)
    &&& forall|s: int, v: Cell|
        0 <= s < sections.len() && #[trigger] sections[s].holds(v) ==> sections[s].agrees_at(scene, v)
    &&& forall|s: int| 0 <= s < sections.len() ==> (#[trigger] sections[s]).matches(scene)
}

/// With one more section, the voxels held are those held before and those of the
/// section.
pub proof fn lemma_any_holds_push<U: UnitBrick, B: NonUnitBrick<U>, C: Color>(
    sections: Seq<Section<U, B, C>>,
    section: Section<U, B, C>,
    v: Cell,
)
    ensures
        any_holds(sections.push(section), v) <==> any_holds(sections, v) || section.holds(v),
{
    let longer = sections.push(section);
    if any_holds(sections, v) {
        let s = choose|s: int| 0 <= s < sections.len() && #[trigger] sections[s].holds(v);
        assert(longer[s].holds(v));
    }
    if section.holds(v) {
        assert(longer[sections.len() as int].holds(v));
    }
    if any_holds(longer, v) {
        let s = choose|s: int| 0 <= s < longer.len() && #[trigger] longer[s].holds(v);
        if s < sections.len() {
            assert(sections[s].holds(v));
        }
    }
}

/// The bricks that depict an image.
pub struct Mosaic<U: UnitBrick, B: NonUnitBrick<U>, C: Color> {
    sections: Vec<Section<U, B, C>>,
    length: u32,
    width: u32,
}

impl<U: UnitBrick, B: NonUnitBrick<U>, C: Color> View for Mosaic<U, B, C> {
    type V = Seq<PlacedBrick<U, B, C>>;

    /// The placed bricks of the mosaic, section by section, chunk by chunk.
    closed spec fn view(&self) -> Seq<PlacedBrick<U, B, C>> {
        self.placements_upto(self.sections@.len() as int)
    }
}

impl<U: UnitBrick, B: NonUnitBrick<U>, C: Color> Mosaic<U, B, C> {
    /// The sections of the mosaic.
    pub closed spec fn spec_sections(&self) -> Seq<Section<U, B, C>> {
        self.sections@
    }

    /// The length of the image that the mosaic depicts.
    pub closed spec fn spec_length(&self) -> u32 {
        self.length
    }

    /// The width of the image that the mosaic depicts.
    pub closed spec fn spec_width(&self) -> u32 {
        self.width
    }

    /// Every section is well formed, and no two sections begin at the same voxel.
    pub open spec fn wf(&self) -> bool {
        &&& forall|s: int|
            0 <= s < self.spec_sections().len() ==> (#[trigger] self.spec_sections()[s]).wf()
        &&& forall|s: int, t: int|
            0 <= s < self.spec_sections().len() && 0 <= t < self.spec_sections().len() && s != t
                ==> (#[trigger] self.spec_sections()[s]).origin() != (
            #[trigger] self.spec_sections()[t]).origin()
    }

    #[verifier::type_invariant]
    closed spec fn inv(self) -> bool {
        self.wf()
    }

    /// The placed bricks of the first `n` sections.
    pub open spec fn placements_upto(&self, n: int) -> Seq<PlacedBrick<U, B, C>>
        decreases n,
    {
        if n <= 0 {
            Seq::empty()
        } else {
            self.placements_upto(n - 1) + self.spec_sections()[n - 1].placements()
        }
    }

    /// Whether one of the mosaic's chunks holds voxel `v`.
    pub open spec fn holds(&self, v: Cell) -> bool {
        exists|s: int| 0 <= s < self.spec_sections().len() && #[trigger] self.spec_sections()[s].holds(v)
    }

    /// Whether one of the first `n` sections holds voxel `v`.
    pub open spec fn holds_upto(&self, n: int, v: Cell) -> bool {
        exists|s: int| 0 <= s < n && #[trigger] self.spec_sections()[s].holds(v)
    }

    /// Of the placed bricks of the first `n` sections, exactly one fills each voxel that
    /// one of these sections holds, and none fills any other voxel.
    pub proof fn lemma_count_upto(&self, n: int, v: Cell)
        requires
            self.wf(),
            0 <= n <= self.spec_sections().len(),
        ensures
            count_filling(self.placements_upto(n), v.0, v.1, v.2) == (if self.holds_upto(n, v) {
                1nat
            } else {
                0nat
            }),
        decreases n,
    {
        if n > 0 {
            self.lemma_count_upto(n - 1, v);
            let section = self.spec_sections()[n - 1];
            section.lemma_count(v);
            lemma_count_filling_add(
                self.placements_upto(n - 1),
                section.placements(),
                v.0,
                v.1,
                v.2,
            );
            if self.holds_upto(n - 1, v) {
                let s = choose|s: int| 0 <= s < n - 1 && #[trigger] self.spec_sections()[s].holds(v);
                assert(self.spec_sections()[s].holds(v));
                if section.holds(v) {
                    self.spec_sections()[s].lemma_holds_near(v);
                    section.lemma_holds_near(v);
                }
            }
            if section.holds(v) {
                assert(self.spec_sections()[n - 1].holds(v));
            }
            if self.holds_upto(n, v) {
                let s = choose|s: int| 0 <= s < n && #[trigger] self.spec_sections()[s].holds(v);
                if s < n - 1 {
                    assert(self.spec_sections()[s].holds(v));
                }
            }
        }
    }

    /// Exactly one placed brick of the mosaic fills each voxel that the mosaic holds, and
    /// none fills any other voxel: the placed bricks do not overlap.
    pub proof fn lemma_count(&self, v: Cell)
        requires
            self.wf(),
        ensures
            count_filling(self@, v.0, v.1, v.2) == (if self.holds(v) {
                1nat
            } else {
                0nat
            }),
    {
        let n = self.spec_sections().len() as int;
        self.lemma_count_upto(n, v);
        if self.holds(v) {
            let s = choose|s: int|
                0 <= s < self.spec_sections().len() && #[trigger] self.spec_sections()[s].holds(v);
            assert(self.spec_sections()[s].holds(v));
        }
    }

    /// Whether the mosaic depicts the scene: it is as long and as wide, its chunks hold
    /// exactly the voxels of the scene, and each voxel lies in a chunk of unit bricks
    /// that has the unit brick and the color of the voxel.
    pub open spec fn depicts(&self, scene: Scene<U, B, C>) -> bool {
        &&& self.spec_length() == scene.length
        &&& self.spec_width() == scene.width
        &&& forall|v: Cell| #[trigger] self.holds(v) <==> scene.has(v)
        &&& forall|s: int|
            0 <= s < self.spec_sections().len() ==> (#[trigger] self.spec_sections()[s]).all_units()
        &&& forall|s: int, v: Cell|
            0 <= s < self.spec_sections().len() && #[trigger] self.spec_sections()[s].holds(v)
                ==> self.spec_sections()[s].agrees_at(scene, v)
        &&& forall|s: int|
            0 <= s < self.spec_sections().len() ==> (#[trigger] self.spec_sections()[s]).matches(
                scene,
            )
    }

    /// Whether the mosaic portrays the scene: it is as long and as wide, its chunks hold
    /// exactly the voxels of the scene, and each voxel lies in a chunk that has the unit
    /// brick and the color of the voxel.
    pub open spec fn portrays(&self, scene: Scene<U, B, C>) -> bool {
        &&& self.spec_length() == scene.length
        &&& self.spec_width() == scene.width
        &&& forall|v: Cell| #[trigger] self.holds(v) <==> scene.has(v)
        &&& forall|s: int, v: Cell|
            0 <= s < self.spec_sections().len() && #[trigger] self.spec_sections()[s].holds(v)
                ==> self.spec_sections()[s].agrees_at(scene, v)
        &&& forall|s: int|
            0 <= s < self.spec_sections().len() ==> (#[trigger] self.spec_sections()[s]).matches(
                scene,
            )
    }

    /// Each placed brick of the first `n` sections is a brick of a chunk of one of these
    /// sections, placed.
    pub proof fn lemma_placement_source(&self, n: int, i: int) -> (source: (int, int, int))
        requires
            0 <= n <= self.spec_sections().len(),
            0 <= i < self.placements_upto(n).len(),
        ensures
            0 <= source.0 < n,
            0 <= source.1 < self.spec_sections()[source.0].spec_chunks().len(),
            0 <= source.2 < self.spec_sections()[source.0].spec_chunks()[source.1].spec_bricks().len(),
            self.placements_upto(n)[i] == self.spec_sections()[source.0].spec_chunks()[source.1].place(
                self.spec_sections()[source.0].origin(),
                self.spec_sections()[source.0].spec_chunks()[source.1].spec_bricks()[source.2],
            ),
        decreases n,
    {
        let before = self.placements_upto(n - 1);
        if i < before.len() {
            self.lemma_placement_source(n - 1, i)
        } else {
            let section = self.spec_sections()[n - 1];
            let inner = section.lemma_placement_source(
                section.spec_chunks().len() as int,
                i - before.len(),
            );
            (n - 1, inner.0, inner.1)
        }
    }

    /// Coverage: of the placed bricks of a mosaic that portrays a scene, exactly one fills
    /// each voxel of the scene, and none fills any other voxel. The bricks leave no gap,
    /// do not overlap, and fill nothing outside the scene.
    pub proof fn exact_cover(&self, scene: Scene<U, B, C>, v: Cell)
        requires
            self.wf(),
            self.portrays(scene),
        ensures
            count_filling(self@, v.0, v.1, v.2) == (if scene.has(v) {
                1nat
            } else {
                0nat
            }),
    {
        self.lemma_count(v);
    }

    /// Color fidelity: a placed brick of a mosaic that portrays a scene fills only voxels
    /// of the scene, and has the color and the unit brick that the scene has at each of
    /// them: the very same, or equal as `==` compares them where `==` follows its
    /// specification.
    pub proof fn color_fidelity(&self, scene: Scene<U, B, C>, i: int, v: Cell)
        requires
            self.wf(),
            self.portrays(scene),
            0 <= i < self@.len(),
            self@[i].fills(v.0, v.1, v.2),
        ensures
            scene.has(v),
            exists|unit_brick: U| #[trigger] scene.agrees(v, unit_brick, self@[i].color),
    {
        let source = self.lemma_placement_source(self.spec_sections().len() as int, i);
        let section = self.spec_sections()[source.0];
        let chunk = section.spec_chunks()[source.1];
        assert(section.wf());
        chunk.lemma_placed_inside(section.origin(), source.2, v);
        assert(chunk.covers(section.local(v)));
        assert(section.holds(v));
        assert(self.holds(v));
        assert(section.agrees_at(scene, v));
        assert(scene.agrees(v, chunk.spec_unit_brick(), chunk.spec_color()));
        assert(self@[i] == chunk.place(section.origin(), chunk.spec_bricks()[source.2]));
        assert(self@[i].color == chunk.spec_color());
        assert(scene.agrees(v, chunk.spec_unit_brick(), self@[i].color));
    }

    /// In a mosaic that depicts a scene, every placed brick is a unit brick, and fills
    /// one voxel.
    pub proof fn voxel_resolution(&self, scene: Scene<U, B, C>, i: int)
        requires
            self.wf(),
            self.depicts(scene),
            0 <= i < self@.len(),
        ensures
            self@[i].brick is Unit,
            self@[i].brick.is_unit_size(),
    {
        let source = self.lemma_placement_source(self.spec_sections().len() as int, i);
        let section = self.spec_sections()[source.0];
        let chunk = section.spec_chunks()[source.1];
        assert(section.all_units());
        chunk.lemma_is_units(source.2);
    }

    /// A mosaic that depicts a scene portrays it.
    pub proof fn depicts_portrays(&self, scene: Scene<U, B, C>)
        requires
            self.depicts(scene),
        ensures
            self.portrays(scene),
    {
    }

    /// Reduction keeps the voxels: a mosaic that was reduced holds the voxels that it
    /// held before, so it portrays the scenes that it portrayed before, with the same
    /// color and unit brick at each voxel.
    pub proof fn reduction_keeps_voxels(
        &self,
        before: Self,
        catalog: Seq<B>,
        exclusions: Seq<(B, C)>,
        scene: Scene<U, B, C>,
    )
        requires
            before.wf(),
            self.reduced_from(before, catalog, exclusions),
            before.portrays(scene),
        ensures
            self.portrays(scene),
    {
        assert forall|s: int, v: Cell|
            0 <= s < self.spec_sections().len() implies (#[trigger] self.spec_sections()[s].holds(v)
            == before.spec_sections()[s].holds(v) && (self.spec_sections()[s].holds(v)
            ==> self.spec_sections()[s].agrees_at(scene, v))) by {
            let after_section = self.spec_sections()[s];
            let before_section = before.spec_sections()[s];
            assert(section_reduced(after_section, before_section, catalog, exclusions));
            let c = after_section.local(v);
            assert forall|k: int| 0 <= k < after_section.spec_chunks().len() implies (
            #[trigger] after_section.spec_chunks()[k].covers(c)
                == before_section.spec_chunks()[k].covers(c)) by {
                assert(chunk_reduced(
                    after_section.spec_chunks()[k],
                    before_section.spec_chunks()[k],
                    catalog,
                    exclusions,
                ));
            }
            if after_section.holds(v) {
                let k = choose|k: int|
                    0 <= k < after_section.spec_chunks().len()
                        && #[trigger] after_section.spec_chunks()[k].covers(c);
                assert(before_section.spec_chunks()[k].covers(c));
                assert(before_section.holds(v));
                assert(before_section.agrees_at(scene, v));
                assert forall|m: int|
                    0 <= m < after_section.spec_chunks().len()
                        && #[trigger] after_section.spec_chunks()[m].covers(c) implies scene.agrees(
                    v,
                    after_section.spec_chunks()[m].spec_unit_brick(),
                    after_section.spec_chunks()[m].spec_color(),
                ) by {
                    assert(chunk_reduced(
                        after_section.spec_chunks()[m],
                        before_section.spec_chunks()[m],
                        catalog,
                        exclusions,
                    ));
                    assert(before_section.spec_chunks()[m].covers(c));
                }
            }
            if before_section.holds(v) {
                let k = choose|k: int|
                    0 <= k < before_section.spec_chunks().len()
                        && #[trigger] before_section.spec_chunks()[k].covers(c);
                assert(after_section.spec_chunks()[k].covers(c));
            }
        }
        assert forall|s: int| 0 <= s < self.spec_sections().len() implies (
        #[trigger] self.spec_sections()[s]).matches(scene) by {
            assert(section_reduced(
                self.spec_sections()[s],
                before.spec_sections()[s],
                catalog,
                exclusions,
            ));
            let after_section = self.spec_sections()[s];
            let before_section = before.spec_sections()[s];
            assert(before_section.matches(scene));
            assert forall|v: Cell| #[trigger]
                after_section.spec_slab().has(after_section.local(v)) <==> scene.has(v)
                    && after_section.origin().0 <= v.0 < after_section.origin().0 + 255
                    && after_section.origin().1 <= v.1 < after_section.origin().1 + 255
                    && after_section.origin().2 <= v.2 < after_section.origin().2 + 255 by {
                assert(after_section.local(v) == before_section.local(v));
                assert(before_section.spec_slab().has(before_section.local(v)) <==> scene.has(v)
                    && before_section.origin().0 <= v.0 < before_section.origin().0 + 255
                    && before_section.origin().1 <= v.1 < before_section.origin().1 + 255
                    && before_section.origin().2 <= v.2 < before_section.origin().2 + 255);
            }
            assert forall|v: Cell| #[trigger]
                after_section.spec_slab().has(
                    after_section.local(v),
                ) implies after_section.spec_slab().brick_at(after_section.local(v)) == (
            scene.brick_at)(v).spec_unit_brick() && after_section.spec_slab().color_at(
                after_section.local(v).0,
                after_section.local(v).1,
            ) == (scene.color_at)(v.0, v.1) by {
                assert(after_section.local(v) == before_section.local(v));
                assert(before_section.spec_slab().has(before_section.local(v)));
            }
        }
        assert forall|v: Cell| #[trigger] self.holds(v) <==> scene.has(v) by {
            if self.holds(v) {
                let s = choose|s: int|
                    0 <= s < self.spec_sections().len() && #[trigger] self.spec_sections()[s].holds(
                        v,
                    );
                assert(before.spec_sections()[s].holds(v));
                assert(before.holds(v));
            }
            if before.holds(v) {
                let s = choose|s: int|
                    0 <= s < before.spec_sections().len()
                        && #[trigger] before.spec_sections()[s].holds(v);
                assert(self.spec_sections()[s].holds(v));
            }
        }
    }

    /// The placed bricks of the first `n` sections of a mosaic that was reduced fill as
    /// many voxels as before.
    pub proof fn lemma_same_volume_upto(
        &self,
        before: Self,
        catalog: Seq<B>,
        exclusions: Seq<(B, C)>,
        n: int,
    )
        requires
            self.reduced_from(before, catalog, exclusions),
            0 <= n <= self.spec_sections().len(),
        ensures
            total_volume(self.placements_upto(n)) == total_volume(before.placements_upto(n)),
        decreases n,
    {
        if n > 0 {
            self.lemma_same_volume_upto(before, catalog, exclusions, n - 1);
            let after_section = self.spec_sections()[n - 1];
            let before_section = before.spec_sections()[n - 1];
            assert(section_reduced(after_section, before_section, catalog, exclusions));
            assert forall|k: int| 0 <= k < after_section.spec_chunks().len() implies (
            #[trigger] after_section.spec_chunks()[k]).volume()
                == before_section.spec_chunks()[k].volume() by {
                assert(chunk_reduced(
                    after_section.spec_chunks()[k],
                    before_section.spec_chunks()[k],
                    catalog,
                    exclusions,
                ));
            }
            after_section.lemma_same_volume_upto(
                before_section,
                after_section.spec_chunks().len() as int,
            );
            lemma_total_volume_add(self.placements_upto(n - 1), after_section.placements());
            lemma_total_volume_add(before.placements_upto(n - 1), before_section.placements());
        }
    }

    /// Reduction is conservative: the bricks of each chunk of a mosaic that was reduced
    /// fill as many voxels as the bricks of the chunk did before, and so do the placed
    /// bricks of the whole mosaic.
    pub proof fn reduction_keeps_volume(
        &self,
        before: Self,
        catalog: Seq<B>,
        exclusions: Seq<(B, C)>,
    )
        requires
            self.reduced_from(before, catalog, exclusions),
        ensures
            total_volume(self@) == total_volume(before@),
            forall|s: int, k: int|
                0 <= s < self.spec_sections().len() && 0 <= k < self.spec_sections()[s].spec_chunks().len()
                    ==> (#[trigger] self.spec_sections()[s].spec_chunks()[k]).volume()
                    == before.spec_sections()[s].spec_chunks()[k].volume(),
    {
        self.lemma_same_volume_upto(
            before,
            catalog,
            exclusions,
            self.spec_sections().len() as int,
        );
        assert forall|s: int, k: int|
            0 <= s < self.spec_sections().len() && 0 <= k < self.spec_sections()[s].spec_chunks().len()
                implies (#[trigger] self.spec_sections()[s].spec_chunks()[k]).volume()
            == before.spec_sections()[s].spec_chunks()[k].volume() by {
            assert(section_reduced(
                self.spec_sections()[s],
                before.spec_sections()[s],
                catalog,
                exclusions,
            ));
            assert(chunk_reduced(
                self.spec_sections()[s].spec_chunks()[k],
                before.spec_sections()[s].spec_chunks()[k],
                catalog,
                exclusions,
            ));
        }
    }

    /// Reduction with a catalog of unit shapes: where no shape of the catalog is larger
    /// than 1x1x1, a chunk keeps its bricks if the catalog has no shape with its unit
    /// brick, and else gets one 1x1x1 brick for each of its voxels. Either way the chunk
    /// keeps its unit brick and its color, so no voxel changes its unit brick or color.
    pub proof fn unit_catalog_keeps_voxels(
        &self,
        before: Self,
        catalog: Seq<B>,
        exclusions: Seq<(B, C)>,
        s: int,
        k: int,
        i: int,
    )
        requires
            obeys::<U, B, C>(),
            self.reduced_from(before, catalog, exclusions),
            forall|n: int| 0 <= n < catalog.len() ==> crate::catalog::is_small::<U, B>(#[trigger] catalog[n]),
            0 <= s < self.spec_sections().len(),
            0 <= k < self.spec_sections()[s].spec_chunks().len(),
            0 <= i < self.spec_sections()[s].spec_chunks()[k].spec_bricks().len(),
        ensures
            self.spec_sections()[s].spec_chunks()[k].spec_unit_brick() == before.spec_sections()[s].spec_chunks()[k].spec_unit_brick(),
            self.spec_sections()[s].spec_chunks()[k].spec_color() == before.spec_sections()[s].spec_chunks()[k].spec_color(),
            candidates(
                catalog,
                exclusions,
                before.spec_sections()[s].spec_chunks()[k].spec_unit_brick(),
                before.spec_sections()[s].spec_chunks()[k].spec_color(),
            ) is None ==> self.spec_sections()[s].spec_chunks()[k].spec_bricks()
                == before.spec_sections()[s].spec_chunks()[k].spec_bricks(),
            candidates(
                catalog,
                exclusions,
                before.spec_sections()[s].spec_chunks()[k].spec_unit_brick(),
                before.spec_sections()[s].spec_chunks()[k].spec_color(),
            ) is Some ==> self.spec_sections()[s].spec_chunks()[k].spec_bricks()[i].brick.is_unit_size(),
    {
        let after_chunk = self.spec_sections()[s].spec_chunks()[k];
        let before_chunk = before.spec_sections()[s].spec_chunks()[k];
        assert(section_reduced(
            self.spec_sections()[s],
            before.spec_sections()[s],
            catalog,
            exclusions,
        ));
        assert(chunk_reduced(after_chunk, before_chunk, catalog, exclusions));
        let offered = candidates(
            catalog,
            exclusions,
            before_chunk.spec_unit_brick(),
            before_chunk.spec_color(),
        );
        if offered is Some {
            let tried = offered.unwrap();
            crate::packing::lemma_greedy_members(
                before_chunk.cells(),
                tried,
                layers(tried, before_chunk.dims().2),
                after_chunk.spec_bricks(),
                i,
            );
            crate::catalog::lemma_small_candidates(
                catalog,
                exclusions,
                before_chunk.spec_unit_brick(),
                before_chunk.spec_color(),
                after_chunk.spec_bricks()[i].brick,
            );
        }
    }

    /// The mosaic of the given sections. A section never holds a chunk without voxels:
    /// where a region has no column at some height, no chunk is made of it.
    fn new(sections: Vec<Section<U, B, C>>, length: u32, width: u32) -> (r: Self)
        requires
            forall|s: int| 0 <= s < sections@.len() ==> (#[trigger] sections@[s]).wf(),
            forall|s: int, t: int|
                0 <= s < sections@.len() && 0 <= t < sections@.len() && s != t ==> (
                #[trigger] sections@[s]).origin() != (#[trigger] sections@[t]).origin(),
        ensures
            r.spec_sections() == sections@,
            r.spec_length() == length,
            r.spec_width() == width,
    {
        Mosaic { sections, length, width }
    }

    /// Builds the mosaic of an image. Each pixel becomes a column of voxels: its color is
    /// what the palette makes of the pixel, or the default color where the palette has
    /// none; its height is what `height_fn` returns for the column and its color; the
    /// brick of each voxel is what `brick_fn` returns for the voxel and the color of its
    /// column. Each function is asked once for each column or voxel.
    ///
    /// The first brick that is not 1x1x1 ends the construction with
    /// `MosaicError::NotUnitBrick`, which holds that brick.
    pub fn from_image<
        I: Image,
        P: Palette<C>,
        HF: FnMut(u32, u32, C) -> u32,
        BF: FnMut(u32, u32, u32, C) -> Brick<U, B>,
    >(image: &I, palette: &P, height_fn: HF, brick_fn: BF) -> (r: Result<Self, MosaicError<U, B>>)
        requires
            forall|l: u32, w: u32, color: C| call_requires(height_fn, (l, w, color)),
            forall|l: u32, w: u32, h: u32, color: C| call_requires(brick_fn, (l, w, h, color)),
        ensures
            match r {
                Ok(mosaic) => mosaic.wf() && exists|scene: Scene<U, B, C>| #[trigger]
                    scene.observes(image, palette, height_fn, brick_fn) && mosaic.depicts(scene),
                Err(MosaicError::NotUnitBrick(brick)) => exists|scene: Scene<U, B, C>, v: Cell| #[trigger]
                    scene.refused(image, palette, height_fn, brick_fn, v, brick),
                Err(MosaicError::PointerTooSmall) => false,
            },
    {
        let mut ask_height = height_fn;
        let mut ask_brick = brick_fn;
        let ghost hf = height_fn;
        let ghost bf = brick_fn;
        let image_length = image.length();
        let image_width = image.width();
        let section_images = make_sections(image_length, image_width, SECTION_SIZE);
        let ghost rows = steps(image_length as int, 255);
        let ghost per_row = steps(image_width as int, 255);
        let mut sections: Vec<Section<U, B, C>> = Vec::new();
        let ghost mut scene = Scene::<U, B, C> {
            length: image_length as int,
            width: image_width as int,
            color_at: |l: int, w: int| arbitrary(),
            height_at: |l: int, w: int| 0int,
            brick_at: |v: Cell| arbitrary(),
        };
        let mut index: usize = 0;
        let ghost mut i: int = 0;
        let ghost mut j: int = 0;
        proof {
            assert(0 * per_row == 0) by (nonlinear_arith);
            assert forall|v: Cell| !#[trigger] any_holds(sections@, v) by {}
            if per_row > 0 && rows == 0 {
                assert(rows * per_row == 0) by (nonlinear_arith)
                    requires
                        rows == 0,
                ;
            }
        }

        /* Dividing the mosaic into sections allows bytes to be used for brick coordinates,
           reducing the memory required. It also limits memory to the amount required
           for one section while the mosaic is built. */
        while index < section_images.len()
            invariant
                ask_height == hf,
                ask_brick == bf,
                hf == height_fn,
                bf == brick_fn,
                rows == steps(image_length as int, 255),
                per_row == steps(image_width as int, 255),
                image_length == image.spec_length(),
                image_width == image.spec_width(),
                section_images@.len() == rows * per_row,
                forall|a: int, b: int|
                    0 <= a < rows && 0 <= b < per_row ==> section_images@[a * per_row + b]
                        == #[trigger] tile(image_length as int, image_width as int, 255, a, b),
                index == i * per_row + j,
                0 <= i <= rows,
                0 <= j,
                index < section_images@.len() ==> j < per_row && i < rows,
                index >= section_images@.len() ==> j == 0,
                scene.length == image_length,
                scene.width == image_width,
                scene.columns_seen_upto(image, palette, hf, i, j),
                scene.voxels_seen_upto(bf, i, j, 0),
                built(sections@, scene, i, j, 0),
                forall|l: u32, w: u32, color: C| call_requires(hf, (l, w, color)),
                forall|l: u32, w: u32, h: u32, color: C| call_requires(bf, (l, w, h, color)),
            decreases section_images.len() - index,
        {
            let section = section_images[index];
            let section_l: u32 = section.0;
            let section_w: u32 = section.1;
            let section_length: u8 = section.2;
            let section_width: u8 = section.3;
            proof {
                assert(section == tile(image_length as int, image_width as int, 255, i, j));
                lemma_step_inside(image_length as int, 255, i);
                lemma_step_inside(image_width as int, 255, j);
            }
            let added = add_section(
                image,
                palette,
                &mut ask_height,
                &mut ask_brick,
                &mut sections,
                section_l,
                section_w,
                section_length,
                section_width,
                Ghost(scene),
                Ghost(i),
                Ghost(j),
            );
            match added {
                Ok(next) => {
                    proof {
                        scene = next@;
                    }
                },
                Err(error) => {
                    return Err(error);
                },
            }
            index += 1;
            proof {
                if j + 1 < per_row {
                    j = j + 1;
                    assert(index < rows * per_row) by (nonlinear_arith)
                        requires
                            index == i * per_row + j,
                            0 <= i < rows,
                            0 <= j < per_row,
                    ;
                } else {
                    // The last tile of a row: the next tile begins the next row.
                    assert forall|l: int, w: int| scene.in_image(l, w) implies (#[trigger] tile_done(
                        l,
                        w,
                        i,
                        j + 1,
                    ) <==> tile_done(l, w, i + 1, 0)) by {
                        lemma_step_counted(image_width as int, 255, w / 255);
                    }
                    assert forall|v: Cell|
                        scene.in_image(v.0, v.1) && 0 <= v.2 implies (#[trigger] voxel_done(
                        v,
                        i,
                        j + 1,
                        0,
                    ) <==> voxel_done(v, i + 1, 0, 0)) by {
                        lemma_step_counted(image_width as int, 255, v.1 / 255);
                        assert(tile_done(v.0, v.1, i, j + 1) <==> tile_done(v.0, v.1, i + 1, 0));
                    }
                    assert(built(sections@, scene, i + 1, 0, 0)) by {
                        assert forall|s: int| 0 <= s < sections@.len() implies voxel_done(
                            (#[trigger] sections@[s]).origin(),
                            i + 1,
                            0,
                            0,
                        ) by {
                            assert(voxel_done(sections@[s].origin(), i, j + 1, 0));
                        }
                        assert forall|v: Cell| #[trigger]
                            any_holds(sections@, v) <==> scene.has(v) && voxel_done(
                                v,
                                i + 1,
                                0,
                                0,
                            ) by {
                            assert(any_holds(sections@, v) <==> scene.has(v) && voxel_done(
                                v,
                                i,
                                j + 1,
                                0,
                            ));
                        }
                    }
                    assert(scene.columns_seen_upto(image, palette, hf, i + 1, 0)) by {
                        assert forall|l: int, w: int|
                            scene.in_image(l, w) && #[trigger] tile_done(l, w, i + 1, 0)
                                implies scene.column_seen(image, palette, hf, l, w) by {
                            assert(tile_done(l, w, i, j + 1));
                        }
                    }
                    assert(scene.voxels_seen_upto(bf, i + 1, 0, 0)) by {
                        assert forall|v: Cell|
                            scene.has(v) && #[trigger] voxel_done(v, i + 1, 0, 0)
                                implies scene.voxel_seen(bf, v) by {
                            assert(voxel_done(v, i, j + 1, 0));
                        }
                    }
                    assert((i + 1) * per_row == i * per_row + per_row) by (nonlinear_arith);
                    i = i + 1;
                    j = 0;
                    if i < rows {
                        assert(index < rows * per_row) by (nonlinear_arith)
                            requires
                                index == i * per_row,
                                0 <= i < rows,
                                0 < per_row,
                        ;
                    } else {
                        assert(index == rows * per_row);
                    }
                }
            }
        }
        let mosaic = Mosaic::new(sections, image_length, image_width);
        proof {
            assert(scene.observes(image, palette, height_fn, brick_fn)) by {
                assert forall|l: int, w: int| #[trigger] scene.in_image(l, w) implies scene.column_seen(
                    image,
                    palette,
                    hf,
                    l,
                    w,
                ) by {
                    lemma_step_counted(image_length as int, 255, l / 255);
                    lemma_step_counted(image_width as int, 255, w / 255);
                    if i < rows {
                        assert(index < rows * per_row) by (nonlinear_arith)
                            requires
                                index == i * per_row + j,
                                0 <= i < rows,
                                j == 0,
                                0 < per_row,
                        ;
                    }
                    assert(tile_done(l, w, i, j));
                }
                assert forall|v: Cell| #[trigger] scene.has(v) implies scene.voxel_seen(bf, v) by {
                    lemma_step_counted(image_length as int, 255, v.0 / 255);
                    lemma_step_counted(image_width as int, 255, v.1 / 255);
                    if i < rows {
                        assert(index < rows * per_row) by (nonlinear_arith)
                            requires
                                index == i * per_row + j,
                                0 <= i < rows,
                                j == 0,
                                0 < per_row,
                        ;
                    }
                    assert(voxel_done(v, i, j, 0));
                }
            }
            assert(mosaic.depicts(scene)) by {
                assert forall|v: Cell| #[trigger] mosaic.holds(v) <==> scene.has(v) by {
                    assert(mosaic.holds(v) == any_holds(mosaic.spec_sections(), v));
                    if scene.has(v) {
                        lemma_step_counted(image_length as int, 255, v.0 / 255);
                        lemma_step_counted(image_width as int, 255, v.1 / 255);
                        if i < rows {
                            assert(index < rows * per_row) by (nonlinear_arith)
                                requires
                                    index == i * per_row + j,
                                    0 <= i < rows,
                                    j == 0,
                                    0 < per_row,
                            ;
                        }
                        assert(voxel_done(v, i, j, 0));
                    }
                }
            }
        }
        Ok(mosaic)
    }

    /// Whether the mosaic is the mosaic `before` with the bricks of each chunk replaced by
    /// what the greedy rule places from the catalog.
    pub open spec fn reduced_from(
        &self,
        before: Self,
        catalog: Seq<B>,
        exclusions: Seq<(B, C)>,
    ) -> bool {
        &&& self.wf()
        &&& self.spec_length() == before.spec_length()
        &&& self.spec_width() == before.spec_width()
        &&& self.spec_sections().len() == before.spec_sections().len()
        &&& forall|s: int|
            0 <= s < self.spec_sections().len() ==> section_reduced(
                #[trigger] self.spec_sections()[s],
                before.spec_sections()[s],
                catalog,
                exclusions,
            )
    }

    /// Replaces the unit bricks of each chunk by fewer, larger bricks of the catalog.
    ///
    /// The shapes of the catalog are sorted by their unit bricks. For a chunk, the shapes
    /// with the chunk's unit brick are tried in each orientation, the largest volume
    /// first, but for those that the exclusions name with the chunk's color; the unit
    /// brick itself is tried last. Shapes with an extent of zero are passed over.
    ///
    /// The height of a chunk is cut into layers: as many as fit of the height of the
    /// tallest shapes, then of the next height for what is left, and layers one voxel
    /// high in the end. A layer is filled with the shapes of its height, the largest
    /// area first, and the unit brick fills the voxels that none of them fits.
    ///
    /// The mosaic that is given is used up; the result can be reduced again with another
    /// catalog.
    pub fn reduce_bricks(self, bricks: &[B], exclusions: &[(B, C)]) -> (r: Result<
        Self,
        MosaicError<U, B>,
    >)
        ensures
            r matches Ok(mosaic) && mosaic.reduced_from(self, bricks@, exclusions@),
    {
        proof {
            use_type_invariant(&self);
        }
        let grouped = group_bricks::<U, B>(bricks);
        let bricks_by_type = sort_partitions(&grouped);
        proof {
            assert(partition_keys(bricks_by_type@) =~= partition_keys(grouped@));
        }
        let length = self.length;
        let width = self.width;
        let ghost given = self.sections@;
        proof {
            assert forall|s: int| 0 <= s < given.len() implies (#[trigger] given[s]).wf() by {
                assert(self.spec_sections()[s].wf());
            }
            assert(given.take(given.len() as int) =~= given);
        }
        let mut rest = self.sections;
        let mut reversed: Vec<Section<U, B, C>> = Vec::new();
        while rest.len() > 0
            invariant
                partitions_of(bricks_by_type@, bricks@),
                rest@ == given.take(rest@.len() as int),
                rest@.len() + reversed@.len() == given.len(),
                forall|s: int| 0 <= s < given.len() ==> (#[trigger] given[s]).wf(),
                forall|m: int|
                    0 <= m < reversed@.len() ==> section_reduced(
                        #[trigger] reversed@[m],
                        given[given.len() - 1 - m],
                        bricks@,
                        exclusions@,
                    ),
            decreases rest@.len(),
        {
            let ghost count = rest@.len();
            let section = rest.pop().unwrap();
            proof {
                assert(section == given[count - 1]);
                assert(rest@ =~= given.take(count - 1));
            }
            let reduced = reduce_section(section, &bricks_by_type, exclusions, Ghost(bricks@));
            reversed.push(reduced);
        }
        let ghost backwards = reversed@;
        let mut sections: Vec<Section<U, B, C>> = Vec::new();
        while reversed.len() > 0
            invariant
                backwards.len() == given.len(),
                reversed@ == backwards.take(reversed@.len() as int),
                reversed@.len() + sections@.len() == given.len(),
                forall|k: int|
                    0 <= k < sections@.len() ==> #[trigger] sections@[k] == backwards[given.len() - 1
                        - k],
            decreases reversed@.len(),
        {
            let ghost count = reversed@.len();
            let section = reversed.pop().unwrap();
            proof {
                assert(section == backwards[count - 1]);
                assert(reversed@ =~= backwards.take(count - 1));
            }
            sections.push(section);
        }
        proof {
            assert forall|s: int| 0 <= s < sections@.len() implies section_reduced(
                #[trigger] sections@[s],
                given[s],
                bricks@,
                exclusions@,
            ) by {
                assert(sections@[s] == backwards[given.len() - 1 - s]);
            }
            assert forall|s: int, t: int|
                0 <= s < sections@.len() && 0 <= t < sections@.len() && s != t implies (
            #[trigger] sections@[s]).origin() != (#[trigger] sections@[t]).origin() by {
                assert(section_reduced(sections@[s], given[s], bricks@, exclusions@));
                assert(section_reduced(sections@[t], given[t], bricks@, exclusions@));
                assert(self.spec_sections()[s].origin() != self.spec_sections()[t].origin());
            }
        }
        Ok(Mosaic::new(sections, length, width))
    }

    /// The sections of the mosaic.
    pub fn sections(&self) -> (r: &Vec<Section<U, B, C>>)
        ensures
            r@ == self.spec_sections(),
    {
        &self.sections
    }

    /// The length of the image that the mosaic depicts.
    pub fn length(&self) -> (r: u32)
        ensures
            r == self.spec_length(),
    {
        self.length
    }

    /// The width of the image that the mosaic depicts.
    pub fn width(&self) -> (r: u32)
        ensures
            r == self.spec_width(),
    {
        self.width
    }

    /// The placed bricks of the mosaic, section by section, chunk by chunk. The mosaic
    /// stays as it is, so the bricks can be asked for again.
    pub fn iter(&self) -> (r: Vec<PlacedBrick<U, B, C>>)
        ensures
            r@ == self@,
    {
        proof {
            use_type_invariant(self);
        }
        let mut r: Vec<PlacedBrick<U, B, C>> = Vec::new();
        let mut s: usize = 0;
        while s < self.sections.len()
            invariant
                self.wf(),
                s <= self.sections.len(),
                r@ == self.placements_upto(s as int),
            decreases self.sections.len() - s,
        {
            assert(self.spec_sections()[s as int].wf());
            let mut bricks = self.sections[s].placed();
            r.append(&mut bricks);
            s += 1;
        }
        r
    }
}

/// Builds the chunks of one slab and adds them as a section.
fn add_slab<
    U: UnitBrick,
    B: NonUnitBrick<U>,
    C: Color,
    BF: FnMut(u32, u32, u32, C) -> Brick<U, B>,
>(
    brick_fn: &mut BF,
    sections: &mut Vec<Section<U, B, C>>,
    colors: &Pixels<C>,
    heights: &Pixels<u32>,
    section_l: u32,
    section_w: u32,
    section_h: u32,
    length: u8,
    width: u8,
    height: u8,
    Ghost(scene): Ghost<Scene<U, B, C>>,
    Ghost(i): Ghost<int>,
    Ghost(j): Ghost<int>,
) -> (r: Result<Ghost<Scene<U, B, C>>, MosaicError<U, B>>)
    requires
        0 <= i,
        0 <= j,
        section_l == 255 * i,
        section_w == 255 * j,
        section_h % 255 == 0,
        1 <= length,
        1 <= width,
        1 <= height,
        scene.length <= u32::MAX,
        scene.width <= u32::MAX,
        section_l + length <= scene.length,
        section_w + width <= scene.width,
        section_l + length < scene.length ==> length == 255,
        section_w + width < scene.width ==> width == 255,
        section_h + height <= u32::MAX,
        colors.wf(),
        heights.wf(),
        colors.spec_length() == length,
        colors.spec_width() == width,
        heights.spec_length() == length,
        heights.spec_width() == width,
        forall|l: int, w: int|
            0 <= l < length && 0 <= w < width ==> #[trigger] colors.spec_value(l, w) == (
            scene.color_at)(section_l + l, section_w + w),
        forall|l: int, w: int|
            0 <= l < length && 0 <= w < width ==> #[trigger] heights.spec_value(l, w) == (
            scene.height_at)(section_l + l, section_w + w),
        forall|l: int, w: int|
            0 <= l < length && 0 <= w < width ==> slab_height_of(
                #[trigger] heights.spec_value(l, w) as int,
                section_h as int,
            ) <= height,
        built(old(sections)@, scene, i, j, section_h as int),
        scene.voxels_seen_upto(*old(brick_fn), i, j, section_h as int),
        forall|l: u32, w: u32, h: u32, color: C| call_requires(*old(brick_fn), (l, w, h, color)),
    ensures
        *final(brick_fn) == *old(brick_fn),
        match r {
            Ok(next) => {
                &&& next@.same_columns(scene)
                &&& built(final(sections)@, next@, i, j, section_h + height)
                &&& next@.voxels_seen_upto(*old(brick_fn), i, j, section_h + height)
            },
            Err(MosaicError::NotUnitBrick(brick)) => {
                &&& !brick.is_unit_size()
                &&& exists|v: Cell|
                    scene.has(v) && v.0 / 255 == i && v.1 / 255 == j && #[trigger] scene.asked(
                        *old(brick_fn),
                        v,
                        brick,
                    )
            },
            Err(MosaicError::PointerTooSmall) => false,
        },
{
    let ghost before = sections@;
    let ghost origin = (section_l as int, section_w as int, section_h as int);
    let sampled = Slab::<U, C>::sample::<B, BF>(
        brick_fn,
        colors,
        heights,
        section_l,
        section_w,
        section_h,
        length,
        width,
        height,
    );
    proof {
        assert(length * width * height <= 255 * 255 * 255) by (nonlinear_arith)
            requires
                length <= 255,
                width <= 255,
                height <= 255,
        ;
        assert(usize::MAX >= 0xffff_ffff);
    }
    let (slab, bricks) = match sampled {
        Ok(pair) => pair,
        Err(error) => {
            proof {
                match error {
                    MosaicError::NotUnitBrick(brick) => {
                        let c = choose|c: Cell|
                            {
                                &&& 0 <= c.0 < length
                                &&& 0 <= c.1 < width
                                &&& 0 <= c.2 < slab_height_of(
                                    heights.spec_value(c.0, c.1) as int,
                                    section_h as int,
                                )
                                &&& #[trigger] Slab::<U, C>::asked(
                                    *old(brick_fn),
                                    origin,
                                    colors.spec_value(c.0, c.1),
                                    c,
                                    brick,
                                )
                            };
                        let v = (section_l + c.0, section_w + c.1, section_h + c.2);
                        assert(scene.has(v));
                        assert(scene.asked(*old(brick_fn), v, brick));
                    },
                    _ => {},
                }
            }
            return Err(error);
        },
    };
    let (chunks, founds) = slab.build_chunks::<B>();
    let section = Section {
        l: section_l,
        w: section_w,
        h: section_h,
        chunks,
        slab: Ghost(slab),
        founds,
    };
    let ghost next = Scene {
        length: scene.length,
        width: scene.width,
        color_at: scene.color_at,
        height_at: scene.height_at,
        brick_at: |v: Cell|
            if v.0 / 255 == i && v.1 / 255 == j && section_h <= v.2 < section_h + height {
                bricks@((v.0 - section_l, v.1 - section_w, v.2 - section_h))
            } else {
                (scene.brick_at)(v)
            },
    };
    sections.push(section);
    proof {
        assert(section.origin() == origin);
        assert(section.spec_chunks() == chunks@);
        assert forall|k: int| 0 <= k < chunks@.len() implies (#[trigger] chunks@[k]).wf()
            && chunks@[k].fits_at(origin) by {
            chunks@[k].lemma_dims_small();
        }
        assert(section.wf());
        assert(section.all_units());
        // The voxels of the new section are the voxels of the scene in the slab.
        assert forall|v: Cell| #[trigger]
            section.holds(v) <==> scene.has(v) && v.0 / 255 == i && v.1 / 255 == j && section_h
                <= v.2 < section_h + height by {
            let c = section.local(v);
            assert(covered(chunks@, c) <==> slab.has(c));
            if slab.has(c) {
                slab.lemma_has_index(c);
                assert(slab.height_at(c.0, c.1) == slab_height_of(
                    heights.spec_value(c.0, c.1) as int,
                    section_h as int,
                ));
            }
            if scene.has(v) && v.0 / 255 == i && v.1 / 255 == j && section_h <= v.2 < section_h
                + height {
                assert(0 <= c.0 < length && 0 <= c.1 < width);
                assert(slab.height_at(c.0, c.1) == slab_height_of(
                    heights.spec_value(c.0, c.1) as int,
                    section_h as int,
                ));
            }
        }
        assert forall|v: Cell| #[trigger]
            any_holds(sections@, v) <==> next.has(v) && voxel_done(
                v,
                i,
                j,
                section_h + height,
            ) by {
            lemma_any_holds_push(before, section, v);
            assert(any_holds(before, v) <==> scene.has(v) && voxel_done(v, i, j, section_h as int));
            if section.holds(v) {
                assert(scene.has(v));
            }
        }
        assert forall|s: int| 0 <= s < sections@.len() implies (#[trigger] sections@[s]).wf()
            && sections@[s].all_units() && voxel_done(
            sections@[s].origin(),
            i,
            j,
            section_h + height,
        ) && next.in_image(sections@[s].origin().0, sections@[s].origin().1) by {
            if s < before.len() {
                assert(sections@[s] == before[s]);
                assert(voxel_done(before[s].origin(), i, j, section_h as int));
            }
        }
        assert forall|s: int, t: int|
            0 <= s < sections@.len() && 0 <= t < sections@.len() && s != t implies (
        #[trigger] sections@[s]).origin() != (#[trigger] sections@[t]).origin() by {
            if s < before.len() {
                assert(sections@[s] == before[s]);
                assert(voxel_done(before[s].origin(), i, j, section_h as int));
            }
            if t < before.len() {
                assert(sections@[t] == before[t]);
                assert(voxel_done(before[t].origin(), i, j, section_h as int));
            }
        }
        assert forall|s: int, v: Cell|
            0 <= s < sections@.len() && #[trigger] sections@[s].holds(v)
                implies sections@[s].agrees_at(next, v) by {
            if s < before.len() {
                assert(sections@[s] == before[s]);
                assert(before[s].holds(v));
                assert(any_holds(before, v));
                assert(voxel_done(v, i, j, section_h as int));
                assert((next.brick_at)(v) == (scene.brick_at)(v));
                assert(before[s].agrees_at(scene, v));
            } else {
                let c = section.local(v);
                assert(slab.has(c));
                slab.lemma_has_index(c);
                assert((next.brick_at)(v) == bricks@(c));
                assert forall|k: int|
                    0 <= k < chunks@.len() && #[trigger] chunks@[k].covers(c) implies next.agrees(
                    v,
                    chunks@[k].spec_unit_brick(),
                    chunks@[k].spec_color(),
                ) by {
                    assert(slab.agrees(c, chunks@[k].spec_unit_brick(), chunks@[k].spec_color()));
                    assert(slab.brick_at(c) == bricks@(c).spec_unit_brick());
                    assert(slab.color_at(c.0, c.1) == colors.spec_value(c.0, c.1));
                }
            }
        }
        assert forall|v: Cell|
            next.has(v) && #[trigger] voxel_done(v, i, j, section_h + height)
                implies next.voxel_seen(*old(brick_fn), v) by {
            if voxel_done(v, i, j, section_h as int) {
                assert(scene.voxel_seen(*old(brick_fn), v));
                assert((next.brick_at)(v) == (scene.brick_at)(v));
            } else {
                let c = (v.0 - section_l, v.1 - section_w, v.2 - section_h);
                assert(section.holds(v));
                assert(section.local(v) == c);
                assert(slab.has(c));
                assert(slab.chosen(*old(brick_fn), origin, c, bricks@(c)));
                slab.lemma_has_index(c);
                assert(slab.color_at(c.0, c.1) == colors.spec_value(c.0, c.1));
            }
        }
    }
    Ok(Ghost(next))
}

/// Asks the height function for the height of each column of a tile, once for each
/// column, row by row.
fn sample_heights<C: Color, HF: FnMut(u32, u32, C) -> u32>(
    height_fn: &mut HF,
    colors: &Pixels<C>,
    section_l: u32,
    section_w: u32,
    length: u8,
    width: u8,
) -> (heights: Pixels<u32>)
    requires
        1 <= length,
        colors.wf(),
        colors.spec_length() == length,
        colors.spec_width() == width,
        section_l + length <= u32::MAX,
        section_w + width <= u32::MAX,
        forall|l: u32, w: u32, color: C| call_requires(*old(height_fn), (l, w, color)),
    ensures
        *final(height_fn) == *old(height_fn),
        heights.wf(),
        heights.spec_length() == length,
        heights.spec_width() == width,
        forall|l: int, w: int|
            0 <= l < length && 0 <= w < width ==> call_ensures(
                *old(height_fn),
                ((section_l + l) as u32, (section_w + w) as u32, colors.spec_value(l, w)),
                #[trigger] heights.spec_value(l, w),
            ),
{
    let ghost f0 = *height_fn;
    let mut values: Vec<u32> = Vec::new();
    let mut w: u8 = 0;
    proof {
        assert(0 * length == 0) by (nonlinear_arith);
    }
    while w < width
        invariant
            w <= width,
            1 <= length,
            *height_fn == f0,
            f0 == *old(height_fn),
            colors.wf(),
            colors.spec_length() == length,
            colors.spec_width() == width,
            section_l + length <= u32::MAX,
            section_w + width <= u32::MAX,
            values.len() == w * length,
            forall|l: u32, w: u32, color: C| call_requires(f0, (l, w, color)),
            forall|tl: int, tw: int|
                0 <= tl < length && 0 <= tw < w ==> call_ensures(
                    f0,
                    ((section_l + tl) as u32, (section_w + tw) as u32, colors.spec_value(tl, tw)),
                    #[trigger] crate::pixels::cell(values@, length as int, tl, tw),
                ),
        decreases width - w,
    {
        let mut l: u8 = 0;
        while l < length
            invariant
                w < width,
                l <= length,
                1 <= length,
                *height_fn == f0,
                f0 == *old(height_fn),
                colors.wf(),
                colors.spec_length() == length,
                colors.spec_width() == width,
                section_l + length <= u32::MAX,
                section_w + width <= u32::MAX,
                values.len() == w * length + l,
                forall|l: u32, w: u32, color: C| call_requires(f0, (l, w, color)),
                forall|tl: int, tw: int|
                    0 <= tl < length && (0 <= tw < w || (tw == w && tl < l)) ==> call_ensures(
                        f0,
                        (
                            (section_l + tl) as u32,
                            (section_w + tw) as u32,
                            colors.spec_value(tl, tw),
                        ),
                        #[trigger] crate::pixels::cell(values@, length as int, tl, tw),
                    ),
            decreases length - l,
        {
            let ghost before = values@;
            let color = colors.value(l as usize, w as usize);
            let height = height_fn(section_l + l as u32, section_w + w as u32, color);
            values.push(height);
            proof {
                assert forall|tl: int, tw: int|
                    0 <= tl < length && (0 <= tw < w || (tw == w && tl < l + 1))
                        implies call_ensures(
                    f0,
                    (
                        (section_l + tl) as u32,
                        (section_w + tw) as u32,
                        colors.spec_value(tl, tw),
                    ),
                    #[trigger] crate::pixels::cell(values@, length as int, tl, tw),
                ) by {
                    let k = tw * length + tl;
                    if tw < w {
                        assert(k < w * length) by (nonlinear_arith)
                            requires
                                k == tw * length + tl,
                                0 <= tl < length,
                                0 <= tw < w,
                        ;
                        assert(values@[k] == before[k]);
                        assert(crate::pixels::cell(before, length as int, tl, tw) == before[k]);
                    } else if tl < l {
                        assert(values@[k] == before[k]);
                        assert(crate::pixels::cell(before, length as int, tl, tw) == before[k]);
                    } else {
                        assert(k == before.len());
                    }
                }
            }
            l += 1;
        }
        proof {
            assert((w + 1) * length == w * length + length) by (nonlinear_arith);
        }
        w += 1;
    }
    proof {
        assert(width * length == length * width) by (nonlinear_arith);
    }
    Pixels::from_rows(values, length as usize, width as usize)
}

/// The pixel of the image at column (l, w) of the tile that begins at (section_l,
/// section_w).
pub open spec fn tile_pixel<I: Image>(
    image: &I,
    section_l: u32,
    section_w: u32,
    l: usize,
    w: usize,
) -> crate::color::RawColor {
    image.spec_pixel((section_l + l) as u32, (section_w + w) as u32)
}

/// Builds the sections of one tile: asks for the color and the height of each of its
/// columns, then builds its slabs from the bottom up, each at most 255 voxels high.
fn add_section<
    U: UnitBrick,
    B: NonUnitBrick<U>,
    C: Color,
    I: Image,
    P: Palette<C>,
    HF: FnMut(u32, u32, C) -> u32,
    BF: FnMut(u32, u32, u32, C) -> Brick<U, B>,
>(
    image: &I,
    palette: &P,
    height_fn: &mut HF,
    brick_fn: &mut BF,
    sections: &mut Vec<Section<U, B, C>>,
    section_l: u32,
    section_w: u32,
    length: u8,
    width: u8,
    Ghost(scene): Ghost<Scene<U, B, C>>,
    Ghost(i): Ghost<int>,
    Ghost(j): Ghost<int>,
) -> (r: Result<Ghost<Scene<U, B, C>>, MosaicError<U, B>>)
    requires
        0 <= i,
        0 <= j,
        section_l == 255 * i,
        section_w == 255 * j,
        1 <= length,
        1 <= width,
        section_l + length <= scene.length,
        section_w + width <= scene.width,
        section_l + length < scene.length ==> length == 255,
        section_w + width < scene.width ==> width == 255,
        scene.columns_seen_upto(image, palette, *old(height_fn), i, j),
        scene.voxels_seen_upto(*old(brick_fn), i, j, 0),
        built(old(sections)@, scene, i, j, 0),
        forall|l: u32, w: u32, color: C| call_requires(*old(height_fn), (l, w, color)),
        forall|l: u32, w: u32, h: u32, color: C| call_requires(*old(brick_fn), (l, w, h, color)),
    ensures
        *final(height_fn) == *old(height_fn),
        *final(brick_fn) == *old(brick_fn),
        match r {
            Ok(next) => {
                &&& next@.columns_seen_upto(image, palette, *old(height_fn), i, j + 1)
                &&& next@.voxels_seen_upto(*old(brick_fn), i, j + 1, 0)
                &&& built(final(sections)@, next@, i, j + 1, 0)
            },
            Err(MosaicError::NotUnitBrick(brick)) => exists|seen: Scene<U, B, C>, v: Cell| #[trigger]
                seen.refused(image, palette, *old(height_fn), *old(brick_fn), v, brick),
            Err(MosaicError::PointerTooSmall) => false,
        },
{
    let ghost hf = *height_fn;
    let ghost bf = *brick_fn;
    let ghost before = sections@;

    // Cache colors and heights so that the palette and the functions are asked once
    let read = |l: usize, w: usize| -> (color: crate::color::RawColor)
        requires
            l < length,
            w < width,
        ensures
            color == tile_pixel(image, section_l, section_w, l, w),
        {
            image.pixel(l as u32 + section_l, w as u32 + section_w)
        };
    proof {
        assert(length * width <= 255 * 255) by (nonlinear_arith)
            requires
                length <= 255,
                width <= 255,
        ;
    }
    let raw_colors: Pixels<crate::color::RawColor> = Pixels::from_fn(
        read,
        length as usize,
        width as usize,
    );
    let colors = raw_colors.with_palette(palette);
    let heights = sample_heights(height_fn, &colors, section_l, section_w, length, width);
    let max_height: u32 = match heights.max() {
        Some(max) => max,
        None => 0,
    };
    let ghost tiled = Scene {
        length: scene.length,
        width: scene.width,
        color_at: |l: int, w: int|
            if l / 255 == i && w / 255 == j {
                colors.spec_value(l - section_l, w - section_w)
            } else {
                (scene.color_at)(l, w)
            },
        height_at: |l: int, w: int|
            if l / 255 == i && w / 255 == j {
                heights.spec_value(l - section_l, w - section_w) as int
            } else {
                (scene.height_at)(l, w)
            },
        brick_at: scene.brick_at,
    };
    proof {
        assert forall|v: Cell| #[trigger] voxel_done(v, i, j, 0) implies tiled.has(v) == scene.has(
            v,
        ) by {}
        assert(built(before, tiled, i, j, 0)) by {
            assert forall|v: Cell| #[trigger]
                any_holds(before, v) <==> tiled.has(v) && voxel_done(v, i, j, 0) by {
                assert(any_holds(before, v) <==> scene.has(v) && voxel_done(v, i, j, 0));
            }
            assert forall|s: int, v: Cell|
                0 <= s < before.len() && #[trigger] before[s].holds(v) implies before[s].agrees_at(
                tiled,
                v,
            ) by {
                assert(any_holds(before, v));
                assert(before[s].agrees_at(scene, v));
            }
        }
        assert forall|l: int, w: int|
            tiled.in_image(l, w) && l / 255 == i && w / 255 == j implies #[trigger] tiled.column_seen(
            image,
            palette,
            hf,
            l,
            w,
        ) by {
            let tl = l - section_l;
            let tw = w - section_w;
            assert(0 <= tl < length && 0 <= tw < width);
            assert(call_ensures(
                read,
                (tl as usize, tw as usize),
                raw_colors.spec_value(tl as usize as int, tw as usize as int),
            ));
            assert(crate::pixels::quantizes(
                palette,
                raw_colors.spec_value(tl, tw),
                colors.spec_value(tl, tw),
            ));
            assert(call_ensures(
                hf,
                ((section_l + tl) as u32, (section_w + tw) as u32, colors.spec_value(tl, tw)),
                heights.spec_value(tl, tw),
            ));
        }
    }
    let mut section_h: u32 = 0;
    let ghost mut current = tiled;
    while section_h < max_height
        invariant
            0 <= i,
            0 <= j,
            section_l == 255 * i,
            section_w == 255 * j,
            1 <= length,
            1 <= width,
            *brick_fn == bf,
            bf == *old(brick_fn),
            *height_fn == hf,
            hf == *old(height_fn),
            section_h < max_height ==> section_h % 255 == 0,
            section_h <= max_height,
            current.same_columns(tiled),
            tiled.length == scene.length,
            tiled.width == scene.width,
            tiled.length == image.spec_length(),
            tiled.width == image.spec_width(),
            forall|l: int, w: int|
                tiled.in_image(l, w) && l / 255 == i && w / 255 == j ==> #[trigger] tiled.column_seen(
                    image,
                    palette,
                    hf,
                    l,
                    w,
                ),
            scene.length <= u32::MAX,
            scene.width <= u32::MAX,
            section_l + length <= scene.length,
            section_w + width <= scene.width,
            section_l + length < scene.length ==> length == 255,
            section_w + width < scene.width ==> width == 255,
            colors.wf(),
            heights.wf(),
            colors.spec_length() == length,
            colors.spec_width() == width,
            heights.spec_length() == length,
            heights.spec_width() == width,
            forall|l: int, w: int|
                0 <= l < length && 0 <= w < width ==> #[trigger] heights.spec_value(l, w)
                    <= max_height,
            forall|l: int, w: int|
                0 <= l < length && 0 <= w < width ==> #[trigger] colors.spec_value(l, w) == (
                tiled.color_at)(section_l + l, section_w + w),
            forall|l: int, w: int|
                0 <= l < length && 0 <= w < width ==> #[trigger] heights.spec_value(l, w) == (
                tiled.height_at)(section_l + l, section_w + w),
            built(sections@, current, i, j, section_h as int),
            current.voxels_seen_upto(bf, i, j, section_h as int),
            forall|l: u32, w: u32, h: u32, color: C| call_requires(bf, (l, w, h, color)),
        decreases max_height - section_h,
    {
        let section_height: u32 = if max_height - section_h < SECTION_SIZE {
            max_height - section_h
        } else {
            SECTION_SIZE
        };
        let added = add_slab(
            brick_fn,
            sections,
            &colors,
            &heights,
            section_l,
            section_w,
            section_h,
            length,
            width,
            section_height as u8,
            Ghost(current),
            Ghost(i),
            Ghost(j),
        );
        match added {
            Ok(next) => {
                proof {
                    current = next@;
                }
            },
            Err(error) => {
                proof {
                    match error {
                        MosaicError::NotUnitBrick(brick) => {
                            let v = choose|v: Cell|
                                current.has(v) && v.0 / 255 == i && v.1 / 255 == j
                                    && #[trigger] current.asked(bf, v, brick);
                            assert((current.color_at)(v.0, v.1) == (tiled.color_at)(v.0, v.1));
                            assert((current.height_at)(v.0, v.1) == (tiled.height_at)(v.0, v.1));
                            assert(tiled.column_seen(image, palette, hf, v.0, v.1));
                            assert(current.refused(image, palette, hf, bf, v, brick));
                        },
                        _ => {},
                    }
                }
                return Err(error);
            },
        }
        section_h += section_height;
    }
    proof {
        assert forall|v: Cell| #[trigger]
            voxel_done(v, i, j + 1, 0) && current.has(v) implies voxel_done(
            v,
            i,
            j,
            section_h as int,
        ) by {
            if v.0 / 255 == i && v.1 / 255 == j {
                let tl = v.0 - section_l;
                let tw = v.1 - section_w;
                assert(heights.spec_value(tl, tw) <= max_height);
                assert((current.height_at)(v.0, v.1) == (tiled.height_at)(v.0, v.1));
            }
        }
        assert forall|v: Cell| #[trigger]
            any_holds(sections@, v) <==> current.has(v) && voxel_done(v, i, j + 1, 0) by {
            assert(any_holds(sections@, v) <==> current.has(v) && voxel_done(
                v,
                i,
                j,
                section_h as int,
            ));
        }
        assert forall|s: int| 0 <= s < sections@.len() implies voxel_done(
            (#[trigger] sections@[s]).origin(),
            i,
            j + 1,
            0,
        ) by {
            assert(voxel_done(sections@[s].origin(), i, j, section_h as int));
        }
        assert forall|l: int, w: int|
            current.in_image(l, w) && #[trigger] tile_done(l, w, i, j + 1)
                implies current.column_seen(image, palette, hf, l, w) by {
            if tile_done(l, w, i, j) {
                assert(scene.column_seen(image, palette, hf, l, w));
                assert((tiled.color_at)(l, w) == (scene.color_at)(l, w));
                assert((tiled.height_at)(l, w) == (scene.height_at)(l, w));
            } else {
                assert(tiled.column_seen(image, palette, hf, l, w));
            }
            assert((current.color_at)(l, w) == (tiled.color_at)(l, w));
            assert((current.height_at)(l, w) == (tiled.height_at)(l, w));
        }
        assert forall|v: Cell|
            current.has(v) && #[trigger] voxel_done(v, i, j + 1, 0) implies current.voxel_seen(
            bf,
            v,
        ) by {
            assert(voxel_done(v, i, j, section_h as int));
        }
    }
    Ok(Ghost(current))
}

} // verus!
