//! Flood fill: finds the connected regions of voxels that share a unit brick and a color.

use vstd::prelude::*;
use std::collections::VecDeque;
use boolvec::BoolVec;
use vstd::std_specs::cmp::PartialEqSpec;
use crate::brick::{NonUnitBrick, UnitBrick};
use crate::chunk::{Chunk, snug};
use std::collections::BTreeSet;
use crate::color::Color;
use crate::geometry::Cell;
use crate::slab::{Slab, voxel_index, lemma_voxel_index_injective};
use crate::visited::{bools, filled_with, get_bit, set_bit};

verus! {

/// The voxel that a triple of bytes names.
pub open spec fn cell_of(t: (u8, u8, u8)) -> Cell {
    (t.0 as int, t.1 as int, t.2 as int)
}

/// Whether the bit of voxel `c` is set.
pub open spec fn marked(bits: Seq<bool>, c: Cell, length: int, width: int) -> bool {
    let i = voxel_index(c, length, width);
    0 <= i < bits.len() && bits[i]
}

/// The places of the bits that are not set.
pub open spec fn unmarked(bits: Seq<bool>) -> Set<int> {
    Set::new(|i: int| 0 <= i < bits.len() && !bits[i])
}

/// Setting a bit that was not set leaves one fewer unset.
pub proof fn lemma_unmarked_update(bits: Seq<bool>, i: int)
    requires
        0 <= i < bits.len(),
        !bits[i],
    ensures
        unmarked(bits).finite(),
        unmarked(bits.update(i, true)).finite(),
        unmarked(bits.update(i, true)).len() < unmarked(bits).len(),
{
    let all = Set::new(|k: int| 0 <= k < bits.len());
    vstd::set_lib::lemma_int_range(0, bits.len() as int);
    assert(all =~= vstd::set_lib::set_int_range(0, bits.len() as int));
    assert(unmarked(bits).subset_of(all));
    vstd::set_lib::lemma_len_subset(unmarked(bits), all);
    assert(unmarked(bits.update(i, true)) =~= unmarked(bits).remove(i));
}

/// Whether two voxels share a face.
pub open spec fn adjacent(a: Cell, b: Cell) -> bool {
    ||| (a.1 == b.1 && a.2 == b.2 && (a.0 == b.0 + 1 || b.0 == a.0 + 1))
    ||| (a.0 == b.0 && a.2 == b.2 && (a.1 == b.1 + 1 || b.1 == a.1 + 1))
    ||| (a.0 == b.0 && a.1 == b.1 && (a.2 == b.2 + 1 || b.2 == a.2 + 1))
}

impl<U: UnitBrick, C: Color> Slab<U, C> {
    /// Whether voxel `c` has, as `==` compares them, the given unit brick and color.
    pub open spec fn alike(&self, c: Cell, brick: U, color: C) -> bool {
        self.brick_at(c).eq_spec(&brick) && self.color_at(c.0, c.1).eq_spec(&color)
    }

    /// Whether voxel `c` has the given unit brick and color: the very same, or equal as
    /// `==` compares them where `==` follows its specification.
    pub open spec fn agrees(&self, c: Cell, brick: U, color: C) -> bool {
        (self.brick_at(c) == brick && self.color_at(c.0, c.1) == color) || (U::obeys_eq_spec()
            && C::obeys_eq_spec() ==> self.alike(c, brick, color))
    }

    /// Whether the bit of voxel `c` is set.
    pub open spec fn marks(&self, bits: Seq<bool>, c: Cell) -> bool {
        marked(bits, c, self.dims().0, self.dims().1)
    }

    /// Whether the bit of voxel (l, w, h) is set.
    pub fn was_visited(&self, visited: &BoolVec, l: u8, w: u8, h: u8) -> (r: bool)
        requires
            self.wf(),
            l < self.dims().0,
            w < self.dims().1,
            h < self.dims().2,
            bools(*visited).len() >= self.volume(),
        ensures
            r == self.marks(bools(*visited), (l as int, w as int, h as int)),
    {
        get_bit(visited, self.visited_index(l, w, h)).unwrap()
    }

    /// Whether voxel (l, w, h) is not visited yet and has the given unit brick and color.
    pub fn is_new_pos(
        &self,
        visited: &BoolVec,
        l: u8,
        w: u8,
        h: u8,
        start_brick: U,
        start_color: C,
    ) -> (r: bool)
        requires
            self.wf(),
            self.has((l as int, w as int, h as int)),
            bools(*visited).len() >= self.volume(),
        ensures
            r ==> !self.marks(bools(*visited), (l as int, w as int, h as int)),
            U::obeys_eq_spec() && C::obeys_eq_spec() ==> r == (!self.marks(
                bools(*visited),
                (l as int, w as int, h as int),
            ) && self.alike((l as int, w as int, h as int), start_brick, start_color)),
    {
        proof {
            self.lemma_has_index((l as int, w as int, h as int));
        }
        !self.was_visited(visited, l, w, h) && self.voxel_brick(l, w, h) == start_brick
            && self.column_color(l, w) == start_color
    }
}

/// The triple of bytes that names voxel `c`.
pub open spec fn bytes_of(c: Cell) -> (u8, u8, u8) {
    (c.0 as u8, c.1 as u8, c.2 as u8)
}

/// Whether the list names voxel `c`.
pub open spec fn holds(cells: Seq<(u8, u8, u8)>, c: Cell) -> bool {
    &&& 0 <= c.0 < 256
    &&& 0 <= c.1 < 256
    &&& 0 <= c.2 < 256
    &&& cells.contains(bytes_of(c))
}

/// A list with one more triple names the voxels it named before, and that of the triple.
pub proof fn lemma_holds_push(cells: Seq<(u8, u8, u8)>, t: (u8, u8, u8), c: Cell)
    ensures
        holds(cells.push(t), c) <==> holds(cells, c) || c == cell_of(t),
{
    let longer = cells.push(t);
    if holds(cells, c) {
        let j = choose|j: int| 0 <= j < cells.len() && cells[j] == bytes_of(c);
        assert(longer[j] == bytes_of(c));
    }
    if c == cell_of(t) {
        assert(longer[cells.len() as int] == t);
        assert(bytes_of(c) == t);
    }
    if holds(longer, c) {
        let j = choose|j: int| 0 <= j < longer.len() && longer[j] == bytes_of(c);
        if j < cells.len() {
            assert(cells[j] == bytes_of(c));
        } else {
            assert(bytes_of(c) == t);
        }
    }
}

/// Whether one of the chunks holds voxel `c`.
pub open spec fn covered<U: UnitBrick, B: NonUnitBrick<U>, C: Copy>(
    chunks: Seq<Chunk<U, B, C>>,
    c: Cell,
) -> bool {
    exists|i: int| 0 <= i < chunks.len() && #[trigger] chunks[i].covers(c)
}

/// Whether no voxel is held by two of the chunks.
pub open spec fn disjoint<U: UnitBrick, B: NonUnitBrick<U>, C: Copy>(
    chunks: Seq<Chunk<U, B, C>>,
) -> bool {
    forall|i: int, j: int, c: Cell|
        0 <= i < chunks.len() && 0 <= j < chunks.len() && i != j ==> !(#[trigger] chunks[i].covers(
            c,
        ) && #[trigger] chunks[j].covers(c))
}

/// With one more chunk, the voxels held are those held before and those of the chunk.
pub proof fn lemma_covered_push<U: UnitBrick, B: NonUnitBrick<U>, C: Copy>(
    chunks: Seq<Chunk<U, B, C>>,
    chunk: Chunk<U, B, C>,
    c: Cell,
)
    ensures
        covered(chunks.push(chunk), c) <==> covered(chunks, c) || chunk.covers(c),
{
    let longer = chunks.push(chunk);
    if covered(chunks, c) {
        let i = choose|i: int| 0 <= i < chunks.len() && #[trigger] chunks[i].covers(c);
        assert(longer[i].covers(c));
    }
    if chunk.covers(c) {
        assert(longer[chunks.len() as int].covers(c));
    }
    if covered(longer, c) {
        let i = choose|i: int| 0 <= i < longer.len() && #[trigger] longer[i].covers(c);
        if i < chunks.len() {
            assert(chunks[i].covers(c));
        }
    }
}

/// The voxels found by one flood fill, in the order they were visited, and their
/// bounding box.
pub struct Region {
    pub cells: Vec<(u8, u8, u8)>,
    pub min_l: u8,
    pub max_l: u8,
    pub min_w: u8,
    pub max_w: u8,
    pub min_h: u8,
    pub max_h: u8,
}

impl Region {
    /// Whether voxel `c` lies in the region's bounding box.
    pub open spec fn bounds(&self, c: Cell) -> bool {
        &&& self.min_l <= c.0 <= self.max_l
        &&& self.min_w <= c.1 <= self.max_w
        &&& self.min_h <= c.2 <= self.max_h
    }

    /// Whether column (l, w) lies in the region's bounding box.
    pub open spec fn spans(&self, l: int, w: int) -> bool {
        self.min_l <= l <= self.max_l && self.min_w <= w <= self.max_w
    }
}

impl<U: UnitBrick, C: Color> Slab<U, C> {
    /// Whether voxel `c` lies in the slab's bounding box.
    pub open spec fn in_box(&self, c: Cell) -> bool {
        0 <= c.0 < self.dims().0 && 0 <= c.1 < self.dims().1 && 0 <= c.2 < self.dims().2
    }

    /// Whether a flood fill that began with the given unit brick and color, with the
    /// bits of `blocked` set, may enter voxel `c`.
    pub open spec fn admits(&self, blocked: Seq<bool>, c: Cell, brick: U, color: C) -> bool {
        self.has(c) && !self.marks(blocked, c) && self.alike(c, brick, color)
    }

    /// Whether `path` begins at `seed` and goes on, step by step, to a voxel that shares
    /// a face with the last and that the fill may enter.
    pub open spec fn is_path(
        &self,
        blocked: Seq<bool>,
        seed: Cell,
        brick: U,
        color: C,
        path: Seq<Cell>,
    ) -> bool {
        &&& path.len() > 0
        &&& path[0] == seed
        &&& forall|i: int|
            0 < i < path.len() ==> adjacent(path[i - 1], #[trigger] path[i]) && self.admits(
                blocked,
                path[i],
                brick,
                color,
            )
    }

    /// Whether voxel `c` belongs to the region of `seed`: a path leads from `seed` to it.
    pub open spec fn in_region(
        &self,
        blocked: Seq<bool>,
        seed: Cell,
        brick: U,
        color: C,
        c: Cell,
    ) -> bool {
        exists|path: Seq<Cell>| #[trigger]
            self.is_path(blocked, seed, brick, color, path) && path.last() == c
    }

    /// Whether every voxel that shares a face with `d` and that the fill may enter is
    /// already in the region or waits in the queue.
    pub open spec fn settled(
        &self,
        blocked: Seq<bool>,
        brick: U,
        color: C,
        cells: Seq<(u8, u8, u8)>,
        queue: Seq<(u8, u8, u8)>,
        n: Cell,
    ) -> bool {
        self.admits(blocked, n, brick, color) ==> holds(cells, n) || holds(queue, n)
    }

    /// A voxel that the fill may enter and that shares a face with a voxel of the region
    /// belongs to the region.
    pub proof fn lemma_region_step(
        &self,
        blocked: Seq<bool>,
        seed: Cell,
        brick: U,
        color: C,
        from: Cell,
        to: Cell,
    )
        requires
            self.in_region(blocked, seed, brick, color, from),
            adjacent(from, to),
            self.admits(blocked, to, brick, color),
        ensures
            self.in_region(blocked, seed, brick, color, to),
    {
        let path = choose|path: Seq<Cell>| #[trigger]
            self.is_path(blocked, seed, brick, color, path) && path.last() == from;
        let longer = path.push(to);
        assert(self.is_path(blocked, seed, brick, color, longer)) by {
            assert forall|i: int| 0 < i < longer.len() implies adjacent(
                longer[i - 1],
                #[trigger] longer[i],
            ) && self.admits(blocked, longer[i], brick, color) by {
                if i < path.len() {
                    assert(longer[i] == path[i]);
                    assert(longer[i - 1] == path[i - 1]);
                }
            }
        }
        assert(longer.last() == to);
    }

    /// A list of voxels that holds `seed`, and with each of its voxels every voxel that
    /// shares a face with it and that the fill may enter, holds the end of every path.
    pub proof fn lemma_closed_holds_path(
        &self,
        blocked: Seq<bool>,
        seed: Cell,
        brick: U,
        color: C,
        cells: Seq<(u8, u8, u8)>,
        path: Seq<Cell>,
    )
        requires
            holds(cells, seed),
            forall|d: Cell, n: Cell|
                holds(cells, d) && #[trigger] adjacent(d, n) && self.admits(blocked, n, brick, color)
                    ==> holds(cells, n),
            self.is_path(blocked, seed, brick, color, path),
        ensures
            holds(cells, path.last()),
        decreases path.len(),
    {
        if path.len() > 1 {
            let shorter = path.drop_last();
            assert(self.is_path(blocked, seed, brick, color, shorter)) by {
                assert forall|i: int| 0 < i < shorter.len() implies adjacent(
                    shorter[i - 1],
                    #[trigger] shorter[i],
                ) && self.admits(blocked, shorter[i], brick, color) by {
                    assert(shorter[i] == path[i]);
                    assert(shorter[i - 1] == path[i - 1]);
                }
            }
            self.lemma_closed_holds_path(blocked, seed, brick, color, cells, shorter);
            let i = path.len() - 1;
            assert(adjacent(path[i - 1], path[i]) && self.admits(blocked, path[i], brick, color));
            assert(shorter.last() == path[i - 1]);
        }
    }

    /// Whether every voxel of the queue is a voxel of the slab and, where `==` follows
    /// its specification, of the region of `seed`.
    pub open spec fn queue_ok(
        &self,
        blocked: Seq<bool>,
        seed: Cell,
        brick: U,
        color: C,
        queue: Seq<(u8, u8, u8)>,
    ) -> bool {
        forall|j: int|
            0 <= j < queue.len() ==> self.has(cell_of(#[trigger] queue[j])) && (U::obeys_eq_spec()
                && C::obeys_eq_spec() ==> self.in_region(
                blocked,
                seed,
                brick,
                color,
                cell_of(queue[j]),
            ))
    }

    /// Whether the bits of `visited` are those of `blocked` and of the voxels of `cells`.
    pub open spec fn visited_is(
        &self,
        visited: Seq<bool>,
        blocked: Seq<bool>,
        cells: Seq<(u8, u8, u8)>,
    ) -> bool {
        forall|c: Cell|
            self.in_box(c) ==> (#[trigger] self.marks(visited, c) <==> self.marks(blocked, c)
                || holds(cells, c))
    }

    /// Looks at voxel (l, w, h), which shares a face with a voxel of the region: it joins
    /// the queue if it is not visited yet and has the given unit brick and color.
    fn enqueue(
        &self,
        visited: &BoolVec,
        queue: &mut VecDeque<(u8, u8, u8)>,
        l: u8,
        w: u8,
        h: u8,
        start_brick: U,
        start_color: C,
        Ghost(blocked): Ghost<Seq<bool>>,
        Ghost(seed): Ghost<Cell>,
        Ghost(from): Ghost<Cell>,
        Ghost(cells): Ghost<Seq<(u8, u8, u8)>>,
    )
        requires
            self.wf(),
            self.has((l as int, w as int, h as int)),
            bools(*visited).len() >= self.volume(),
            adjacent(from, (l as int, w as int, h as int)),
            self.visited_is(bools(*visited), blocked, cells),
            U::obeys_eq_spec() && C::obeys_eq_spec() ==> self.in_region(
                blocked,
                seed,
                start_brick,
                start_color,
                from,
            ),
            self.queue_ok(blocked, seed, start_brick, start_color, old(queue)@),
        ensures
            self.queue_ok(blocked, seed, start_brick, start_color, final(queue)@),
            forall|x: (u8, u8, u8)| old(queue)@.contains(x) ==> final(queue)@.contains(x),
            final(queue)@.len() >= old(queue)@.len(),
            U::obeys_eq_spec() && C::obeys_eq_spec() ==> self.settled(
                blocked,
                start_brick,
                start_color,
                cells,
                final(queue)@,
                (l as int, w as int, h as int),
            ),
    {
        let ghost n = (l as int, w as int, h as int);
        let ghost before = queue@;
        proof {
            self.lemma_has_index(n);
            assert(self.in_box(n));
            assert(self.marks(bools(*visited), n) <==> self.marks(blocked, n) || holds(cells, n));
        }
        let pushed = self.push_if_new(visited, queue, l, w, h, start_brick, start_color);
        proof {
            if pushed {
                assert(queue@.last() == (l, w, h));
                assert(queue@.contains((l, w, h)));
                assert(bytes_of(n) == (l, w, h));
                if U::obeys_eq_spec() && C::obeys_eq_spec() {
                    assert(self.admits(blocked, n, start_brick, start_color));
                    self.lemma_region_step(blocked, seed, start_brick, start_color, from, n);
                }
                assert forall|x: (u8, u8, u8)| before.contains(x) implies queue@.contains(x) by {
                    let j = choose|j: int| 0 <= j < before.len() && before[j] == x;
                    assert(queue@[j] == x);
                }
                assert forall|j: int| 0 <= j < queue@.len() implies self.has(
                    cell_of(#[trigger] queue@[j]),
                ) && (U::obeys_eq_spec() && C::obeys_eq_spec() ==> self.in_region(
                    blocked,
                    seed,
                    start_brick,
                    start_color,
                    cell_of(queue@[j]),
                )) by {
                    if j < before.len() {
                        assert(queue@[j] == before[j]);
                    }
                }
            }
        }
    }

    /// Clearing the bit of a voxel of the bounding box changes no other voxel's bit.
    pub proof fn lemma_unmark(&self, bits: Seq<bool>, c: Cell)
        requires
            self.in_box(c),
            bits.len() >= self.volume(),
        ensures
            forall|d: Cell|
                self.in_box(d) ==> (#[trigger] self.marks(
                    bits.update(voxel_index(c, self.dims().0, self.dims().1), false),
                    d,
                ) <==> self.marks(bits, d) && d != c),
    {
        let (length, width, height) = self.dims();
        let i = voxel_index(c, length, width);
        crate::slab::lemma_voxel_index(c, length, width, height);
        assert forall|d: Cell| self.in_box(d) implies (#[trigger] self.marks(bits.update(i, false), d)
            <==> self.marks(bits, d) && d != c) by {
            crate::slab::lemma_voxel_index(d, length, width, height);
            if voxel_index(d, length, width) == i {
                lemma_voxel_index_injective(c, d, length, width, height);
            }
        }
    }

    /// Setting the bit of a voxel of the bounding box changes no other voxel's bit.
    pub proof fn lemma_mark(&self, bits: Seq<bool>, c: Cell)
        requires
            self.in_box(c),
            bits.len() >= self.volume(),
        ensures
            forall|d: Cell|
                self.in_box(d) ==> (#[trigger] self.marks(
                    bits.update(voxel_index(c, self.dims().0, self.dims().1), true),
                    d,
                ) <==> self.marks(bits, d) || d == c),
    {
        let (length, width, height) = self.dims();
        let i = voxel_index(c, length, width);
        crate::slab::lemma_voxel_index(c, length, width, height);
        assert forall|d: Cell| self.in_box(d) implies (#[trigger] self.marks(bits.update(i, true), d)
            <==> self.marks(bits, d) || d == c) by {
            crate::slab::lemma_voxel_index(d, length, width, height);
            if voxel_index(d, length, width) == i {
                lemma_voxel_index_injective(c, d, length, width, height);
            }
        }
    }

    /// Whether, for every voxel of `cells`, each voxel that shares a face with it is
    /// settled.
    pub open spec fn closed(
        &self,
        blocked: Seq<bool>,
        brick: U,
        color: C,
        cells: Seq<(u8, u8, u8)>,
        queue: Seq<(u8, u8, u8)>,
    ) -> bool {
        forall|d: Cell, n: Cell|
            holds(cells, d) && #[trigger] adjacent(d, n) ==> self.settled(
                blocked,
                brick,
                color,
                cells,
                queue,
                n,
            )
    }

    /// Adds voxel (l, w, h) to the queue if it is not visited yet and has the given unit
    /// brick and color.
    fn push_if_new(
        &self,
        visited: &BoolVec,
        queue: &mut VecDeque<(u8, u8, u8)>,
        l: u8,
        w: u8,
        h: u8,
        start_brick: U,
        start_color: C,
    ) -> (pushed: bool)
        requires
            self.wf(),
            self.has((l as int, w as int, h as int)),
            bools(*visited).len() >= self.volume(),
        ensures
            final(queue)@ == (if pushed {
                old(queue)@.push((l, w, h))
            } else {
                old(queue)@
            }),
            pushed ==> !self.marks(bools(*visited), (l as int, w as int, h as int)),
            U::obeys_eq_spec() && C::obeys_eq_spec() ==> pushed == self.admits(
                bools(*visited),
                (l as int, w as int, h as int),
                start_brick,
                start_color,
            ),
    {
        if self.is_new_pos(visited, l, w, h, start_brick, start_color) {
            queue.push_back((l, w, h));
            true
        } else {
            false
        }
    }
}

impl<U: UnitBrick, C: Color> Slab<U, C> {
    /// Finds the region of the voxel (l0, w0, h0): the voxels that a path leads to from
    /// it, each step going to a voxel that shares a face with the last, is not visited
    /// yet and has the given unit brick and color. Sets their bits in `visited` and in
    /// `member`.
    pub fn fill_region(
        &self,
        visited: &mut BoolVec,
        member: &mut BoolVec,
        l0: u8,
        w0: u8,
        h0: u8,
        start_brick: U,
        start_color: C,
    ) -> (region: Region)
        requires
            self.wf(),
            self.has((l0 as int, w0 as int, h0 as int)),
            bools(*old(visited)).len() >= self.volume(),
            bools(*old(member)).len() >= self.volume(),
            !self.marks(bools(*old(visited)), (l0 as int, w0 as int, h0 as int)),
            forall|c: Cell| self.in_box(c) ==> !#[trigger] self.marks(bools(*old(member)), c),
        ensures
            bools(*final(visited)).len() == bools(*old(visited)).len(),
            bools(*final(member)).len() == bools(*old(member)).len(),
            self.frames(&region),
            region.cells@.no_duplicates(),
            region.cells@.len() > 0,
            region.cells@[0] == (l0, w0, h0),
            forall|i: int|
                0 <= i < region.cells@.len() ==> {
                    let c = cell_of(#[trigger] region.cells@[i]);
                    &&& self.has(c)
                    &&& region.bounds(c)
                    &&& !self.marks(bools(*old(visited)), c)
                },
            self.visited_is(bools(*final(visited)), bools(*old(visited)), region.cells@),
            forall|c: Cell|
                self.in_box(c) ==> (#[trigger] self.marks(bools(*final(member)), c) <==> holds(
                    region.cells@,
                    c,
                )),
            U::obeys_eq_spec() && C::obeys_eq_spec() ==> forall|c: Cell|
                holds(region.cells@, c) <==> #[trigger] self.in_region(
                    bools(*old(visited)),
                    (l0 as int, w0 as int, h0 as int),
                    start_brick,
                    start_color,
                    c,
                ),
    {
        let ghost seed = (l0 as int, w0 as int, h0 as int);
        let ghost blocked = bools(*visited);
        let ghost obeys = U::obeys_eq_spec() && C::obeys_eq_spec();
        let mut queue: VecDeque<(u8, u8, u8)> = VecDeque::new();
        queue.push_back((l0, w0, h0));
        let mut cells: Vec<(u8, u8, u8)> = Vec::new();
        let mut min_l: u8 = l0;
        let mut max_l: u8 = l0;
        let mut min_w: u8 = w0;
        let mut max_w: u8 = w0;
        let mut min_h: u8 = h0;
        let mut max_h: u8 = h0;
        proof {
            self.lemma_has_index(seed);
            let path = seq![seed];
            assert(self.is_path(blocked, seed, start_brick, start_color, path));
            assert(path.last() == seed);
            assert(queue@[0] == (l0, w0, h0));
            assert(queue@ =~= seq![(l0, w0, h0)]);
        }

        /* A breadth-first search that explores the voxels around the first one that have
           the same unit brick and color. */
        while queue.len() > 0
            invariant
                self.wf(),
                seed == (l0 as int, w0 as int, h0 as int),
                obeys == (U::obeys_eq_spec() && C::obeys_eq_spec()),
                self.has(seed),
                !self.marks(blocked, seed),
                blocked.len() >= self.volume(),
                bools(*visited).len() == blocked.len(),
                bools(*member).len() == bools(*old(member)).len(),
                bools(*member).len() >= self.volume(),
                self.queue_ok(blocked, seed, start_brick, start_color, queue@),
                min_l <= l0 <= max_l < self.dims().0,
                min_w <= w0 <= max_w < self.dims().1,
                min_h <= h0 <= max_h < self.dims().2,
                cells@.len() == 0 ==> queue@ == seq![(l0, w0, h0)],
                cells@.len() > 0 ==> cells@[0] == (l0, w0, h0),
                cells@.no_duplicates(),
                forall|i: int|
                    0 <= i < cells@.len() ==> {
                        let c = cell_of(#[trigger] cells@[i]);
                        &&& self.has(c)
                        &&& min_l <= c.0 <= max_l
                        &&& min_w <= c.1 <= max_w
                        &&& min_h <= c.2 <= max_h
                        &&& !self.marks(blocked, c)
                        &&& obeys ==> self.in_region(blocked, seed, start_brick, start_color, c)
                    },
                self.visited_is(bools(*visited), blocked, cells@),
                forall|c: Cell|
                    self.in_box(c) ==> (#[trigger] self.marks(bools(*member), c) <==> holds(
                        cells@,
                        c,
                    )),
                obeys ==> self.closed(blocked, start_brick, start_color, cells@, queue@),
            decreases unmarked(bools(*visited)).len(), queue@.len(),
        {
            let ghost q0 = queue@;
            let front = queue.pop_front().unwrap();
            let l: u8 = front.0;
            let w: u8 = front.1;
            let h: u8 = front.2;
            let ghost c = cell_of(front);
            let ghost q1 = queue@;
            let ghost cells_before = cells@;
            proof {
                assert(q0[0] == front);
                assert(self.has(c));
                self.lemma_has_index(c);
                assert(self.in_box(c));
                assert(bytes_of(c) == front);
                assert forall|x: (u8, u8, u8)| q0.contains(x) implies x == front || q1.contains(
                    x,
                ) by {
                    let j = choose|j: int| 0 <= j < q0.len() && q0[j] == x;
                    if j > 0 {
                        assert(q1[j - 1] == x);
                    }
                }
                assert(self.queue_ok(blocked, seed, start_brick, start_color, q1)) by {
                    assert forall|j: int| 0 <= j < q1.len() implies self.has(
                        cell_of(#[trigger] q1[j]),
                    ) && (U::obeys_eq_spec() && C::obeys_eq_spec() ==> self.in_region(
                        blocked,
                        seed,
                        start_brick,
                        start_color,
                        cell_of(q1[j]),
                    )) by {
                        assert(q1[j] == q0[j + 1]);
                    }
                }
            }

            // Avoid an infinite loop by visiting no voxel twice
            if !self.was_visited(visited, l, w, h) {
                let index = self.visited_index(l, w, h);
                let ghost visited_before = bools(*visited);
                let ghost member_before = bools(*member);
                set_bit(visited, index, true);
                set_bit(member, index, true);
                cells.push(front);
                if l < min_l {
                    min_l = l;
                }
                if l > max_l {
                    max_l = l;
                }
                if w < min_w {
                    min_w = w;
                }
                if w > max_w {
                    max_w = w;
                }
                if h < min_h {
                    min_h = h;
                }
                if h > max_h {
                    max_h = h;
                }
                proof {
                    lemma_unmarked_update(visited_before, index as int);
                    self.lemma_mark(visited_before, c);
                    self.lemma_mark(member_before, c);
                    assert(!holds(cells_before, c));
                    assert forall|d: Cell| holds(cells@, d) <==> holds(cells_before, d) || d
                        == c by {
                        lemma_holds_push(cells_before, front, d);
                    }
                    assert(cells@.no_duplicates()) by {
                        assert forall|i: int, j: int|
                            0 <= i < cells@.len() && 0 <= j < cells@.len() && i
                                != j implies cells@[i] != cells@[j] by {
                            if i < cells_before.len() && j < cells_before.len() {
                                assert(cells@[i] == cells_before[i]);
                                assert(cells@[j] == cells_before[j]);
                            } else if i < cells_before.len() {
                                assert(cells@[i] == cells_before[i]);
                                assert(cells_before.contains(cells_before[i]));
                            } else if j < cells_before.len() {
                                assert(cells@[j] == cells_before[j]);
                                assert(cells_before.contains(cells_before[j]));
                            }
                        }
                    }
                    if cells_before.len() == 0 {
                        assert(front == (l0, w0, h0));
                    } else {
                        assert(cells@[0] == cells_before[0]);
                    }
                    assert(obeys ==> self.in_region(blocked, seed, start_brick, start_color, c));
                    assert forall|i: int| 0 <= i < cells@.len() implies {
                        let d = cell_of(#[trigger] cells@[i]);
                        &&& self.has(d)
                        &&& min_l <= d.0 <= max_l
                        &&& min_w <= d.1 <= max_w
                        &&& min_h <= d.2 <= max_h
                        &&& !self.marks(blocked, d)
                        &&& obeys ==> self.in_region(blocked, seed, start_brick, start_color, d)
                    } by {
                        if i < cells_before.len() {
                            assert(cells@[i] == cells_before[i]);
                        }
                    }
                    assert(self.visited_is(bools(*visited), blocked, cells@));
                }
                let height = self.column_height(l, w);
                let ghost west = (l - 1, w as int, h as int);
                let ghost east = (l + 1, w as int, h as int);
                let ghost south = (l as int, w - 1, h as int);
                let ghost north = (l as int, w + 1, h as int);
                let ghost below = (l as int, w as int, h - 1);
                let ghost above = (l as int, w as int, h + 1);

                // Add the voxel to the west to explore later
                if l > 0 && self.column_height(l - 1, w) > h {
                    self.enqueue(
                        visited,
                        &mut queue,
                        l - 1,
                        w,
                        h,
                        start_brick,
                        start_color,
                        Ghost(blocked),
                        Ghost(seed),
                        Ghost(c),
                        Ghost(cells@),
                    );
                }
                let ghost q2 = queue@;

                // Add the voxel to the east to explore later
                if l < self.length() - 1 && self.column_height(l + 1, w) > h {
                    self.enqueue(
                        visited,
                        &mut queue,
                        l + 1,
                        w,
                        h,
                        start_brick,
                        start_color,
                        Ghost(blocked),
                        Ghost(seed),
                        Ghost(c),
                        Ghost(cells@),
                    );
                }
                let ghost q3 = queue@;

                // Add the voxel to the south to explore later
                if w > 0 && self.column_height(l, w - 1) > h {
                    self.enqueue(
                        visited,
                        &mut queue,
                        l,
                        w - 1,
                        h,
                        start_brick,
                        start_color,
                        Ghost(blocked),
                        Ghost(seed),
                        Ghost(c),
                        Ghost(cells@),
                    );
                }
                let ghost q4 = queue@;

                // Add the voxel to the north to explore later
                if w < self.width() - 1 && self.column_height(l, w + 1) > h {
                    self.enqueue(
                        visited,
                        &mut queue,
                        l,
                        w + 1,
                        h,
                        start_brick,
                        start_color,
                        Ghost(blocked),
                        Ghost(seed),
                        Ghost(c),
                        Ghost(cells@),
                    );
                }
                let ghost q5 = queue@;

                // Add the voxel below to explore later
                if h > 0 {
                    self.enqueue(
                        visited,
                        &mut queue,
                        l,
                        w,
                        h - 1,
                        start_brick,
                        start_color,
                        Ghost(blocked),
                        Ghost(seed),
                        Ghost(c),
                        Ghost(cells@),
                    );
                }
                let ghost q6 = queue@;

                // Add the voxel above to explore later
                if h < height - 1 {
                    self.enqueue(
                        visited,
                        &mut queue,
                        l,
                        w,
                        h + 1,
                        start_brick,
                        start_color,
                        Ghost(blocked),
                        Ghost(seed),
                        Ghost(c),
                        Ghost(cells@),
                    );
                }
                proof {
                    let q7 = queue@;
                    assert forall|x: (u8, u8, u8)| q1.contains(x) implies q7.contains(x) by {
                        assert(q2.contains(x));
                        assert(q3.contains(x));
                        assert(q4.contains(x));
                        assert(q5.contains(x));
                        assert(q6.contains(x));
                    }
                    if obeys {
                        assert forall|d: Cell, n: Cell|
                            holds(cells@, d) && #[trigger] adjacent(d, n) implies self.settled(
                            blocked,
                            start_brick,
                            start_color,
                            cells@,
                            q7,
                            n,
                        ) by {
                            if self.admits(blocked, n, start_brick, start_color) {
                                if d == c {
                                    if n == west {
                                        assert(self.settled(blocked, start_brick, start_color, cells@, q2, n));
                                        assert(holds(q2, n) ==> q7.contains(bytes_of(n))) by {
                                            if holds(q2, n) {
                                                assert(q3.contains(bytes_of(n)));
                                                assert(q4.contains(bytes_of(n)));
                                                assert(q5.contains(bytes_of(n)));
                                                assert(q6.contains(bytes_of(n)));
                                            }
                                        }
                                    } else if n == east {
                                        assert(self.settled(blocked, start_brick, start_color, cells@, q3, n));
                                        assert(holds(q3, n) ==> q7.contains(bytes_of(n))) by {
                                            if holds(q3, n) {
                                                assert(q4.contains(bytes_of(n)));
                                                assert(q5.contains(bytes_of(n)));
                                                assert(q6.contains(bytes_of(n)));
                                            }
                                        }
                                    } else if n == south {
                                        assert(self.settled(blocked, start_brick, start_color, cells@, q4, n));
                                        assert(holds(q4, n) ==> q7.contains(bytes_of(n))) by {
                                            if holds(q4, n) {
                                                assert(q5.contains(bytes_of(n)));
                                                assert(q6.contains(bytes_of(n)));
                                            }
                                        }
                                    } else if n == north {
                                        assert(self.settled(blocked, start_brick, start_color, cells@, q5, n));
                                        assert(holds(q5, n) ==> q7.contains(bytes_of(n))) by {
                                            if holds(q5, n) {
                                                assert(q6.contains(bytes_of(n)));
                                            }
                                        }
                                    } else if n == below {
                                        assert(self.settled(blocked, start_brick, start_color, cells@, q6, n));
                                    } else {
                                        assert(n == above);
                                        assert(self.settled(blocked, start_brick, start_color, cells@, q7, n));
                                    }
                                } else {
                                    assert(holds(cells_before, d));
                                    assert(self.settled(
                                        blocked,
                                        start_brick,
                                        start_color,
                                        cells_before,
                                        q0,
                                        n,
                                    ));
                                    if holds(q0, n) && bytes_of(n) != front {
                                        assert(q1.contains(bytes_of(n)));
                                    }
                                }
                            }
                        }
                    }
                }
            } else {
                proof {
                    if obeys {
                        assert forall|d: Cell, n: Cell|
                            holds(cells@, d) && #[trigger] adjacent(d, n) implies self.settled(
                            blocked,
                            start_brick,
                            start_color,
                            cells@,
                            q1,
                            n,
                        ) by {
                            assert(self.settled(blocked, start_brick, start_color, cells@, q0, n));
                            if self.admits(blocked, n, start_brick, start_color) && holds(q0, n)
                                && bytes_of(n) == front {
                                assert(n == c);
                                assert(self.marks(bools(*visited), c));
                            }
                        }
                    }
                    assert(cells@.len() > 0) by {
                        if cells@.len() == 0 {
                            assert(front == (l0, w0, h0));
                            assert(self.marks(bools(*visited), seed) <==> self.marks(blocked, seed)
                                || holds(cells@, seed));
                        }
                    }
                }
            }
        }
        proof {
            assert(cells@.len() > 0);
            if obeys {
                assert(holds(cells@, seed)) by {
                    assert(cells@[0] == bytes_of(seed));
                }
                assert forall|c: Cell| holds(cells@, c) <==> #[trigger] self.in_region(
                    blocked,
                    seed,
                    start_brick,
                    start_color,
                    c,
                ) by {
                    if holds(cells@, c) {
                        let i = choose|i: int| 0 <= i < cells@.len() && cells@[i] == bytes_of(c);
                        assert(cell_of(cells@[i]) == c);
                    }
                    if self.in_region(blocked, seed, start_brick, start_color, c) {
                        let path = choose|path: Seq<Cell>| #[trigger]
                            self.is_path(blocked, seed, start_brick, start_color, path)
                                && path.last() == c;
                        assert forall|d: Cell, n: Cell|
                            holds(cells@, d) && #[trigger] adjacent(d, n) && self.admits(
                                blocked,
                                n,
                                start_brick,
                                start_color,
                            ) implies holds(cells@, n) by {
                            assert(self.settled(blocked, start_brick, start_color, cells@, queue@, n));
                            assert(queue@.len() == 0);
                        }
                        self.lemma_closed_holds_path(
                            blocked,
                            seed,
                            start_brick,
                            start_color,
                            cells@,
                            path,
                        );
                    }
                }
            }
        }
        Region { cells, min_l, max_l, min_w, max_w, min_h, max_h }
    }
}

impl<U: UnitBrick, C: Color> Slab<U, C> {
    /// Whether the region's bounding box lies in the slab's.
    pub open spec fn frames(&self, region: &Region) -> bool {
        &&& region.min_l <= region.max_l < self.dims().0
        &&& region.min_w <= region.max_w < self.dims().1
        &&& region.min_h <= region.max_h < self.dims().2
    }

    /// Whether the columns of the region's bounding box have the same bits at the
    /// heights `h1` and `h2`.
    pub open spec fn columns_match(&self, bits: Seq<bool>, region: &Region, h1: int, h2: int) -> bool {
        forall|l: int, w: int|
            region.spans(l, w) ==> #[trigger] self.marks(bits, (l, w, h1)) == self.marks(
                bits,
                (l, w, h2),
            )
    }

    /// Whether the region has the same columns at the heights `h1` and `h2`.
    fn same_columns(&self, member: &BoolVec, region: &Region, h1: u8, h2: u8) -> (r: bool)
        requires
            self.wf(),
            self.frames(region),
            h1 < self.dims().2,
            h2 < self.dims().2,
            bools(*member).len() >= self.volume(),
        ensures
            r == self.columns_match(bools(*member), region, h1 as int, h2 as int),
    {
        let mut l: u8 = region.min_l;
        while l <= region.max_l
            invariant
                self.wf(),
                self.frames(region),
                h1 < self.dims().2,
                h2 < self.dims().2,
                bools(*member).len() >= self.volume(),
                region.min_l <= l <= region.max_l + 1,
                forall|tl: int, tw: int|
                    region.spans(tl, tw) && tl < l ==> #[trigger] self.marks(
                        bools(*member),
                        (tl, tw, h1 as int),
                    ) == self.marks(bools(*member), (tl, tw, h2 as int)),
            decreases region.max_l + 1 - l,
        {
            let mut w: u8 = region.min_w;
            while w <= region.max_w
                invariant
                    self.wf(),
                    self.frames(region),
                    h1 < self.dims().2,
                    h2 < self.dims().2,
                    bools(*member).len() >= self.volume(),
                    region.min_l <= l <= region.max_l,
                    region.min_w <= w <= region.max_w + 1,
                    forall|tw: int|
                        region.min_w <= tw < w ==> #[trigger] self.marks(
                            bools(*member),
                            (l as int, tw, h1 as int),
                        ) == self.marks(bools(*member), (l as int, tw, h2 as int)),
                decreases region.max_w + 1 - w,
            {
                if self.was_visited(member, l, w, h1) != self.was_visited(member, l, w, h2) {
                    assert(region.spans(l as int, w as int));
                    return false;
                }
                w += 1;
            }
            l += 1;
        }
        true
    }

    /// The chunk of the voxels whose columns have their bit set at height `h0`, at the
    /// heights from `h0` up to, not including, `h0 + height`, filled with unit bricks;
    /// `None` if no column of the region has its bit set at `h0`. The chunk's bounding
    /// box is the smallest that holds its columns.
    fn layer_chunk<B: NonUnitBrick<U>>(
        &self,
        member: &BoolVec,
        region: &Region,
        h0: u8,
        height: u8,
        unit_brick: U,
        color: C,
    ) -> (r: Option<Chunk<U, B, C>>)
        requires
            self.wf(),
            self.frames(region),
            1 <= height,
            h0 + height <= self.dims().2,
            bools(*member).len() >= self.volume(),
        ensures
            match r {
                Some(chunk) => {
                    &&& chunk.wf()
                    &&& chunk.is_units()
                    &&& chunk.spec_unit_brick() == unit_brick
                    &&& chunk.spec_color() == color
                    &&& chunk.origin().2 == h0
                    &&& chunk.dims().2 == height
                    &&& forall|c: Cell|
                        #[trigger] chunk.covers(c) <==> region.spans(c.0, c.1) && self.marks(
                            bools(*member),
                            (c.0, c.1, h0 as int),
                        ) && h0 <= c.2 < h0 + height
                },
                None => forall|l: int, w: int|
                    region.spans(l, w) ==> !#[trigger] self.marks(
                        bools(*member),
                        (l, w, h0 as int),
                    ),
            },
    {
        let ghost bits = bools(*member);
        let ghost mut at_min_l: int = 0;
        let ghost mut at_max_l: int = 0;
        let ghost mut at_min_w: int = 0;
        let ghost mut at_max_w: int = 0;
        let mut found = false;
        let mut min_l: u8 = region.max_l;
        let mut max_l: u8 = region.min_l;
        let mut min_w: u8 = region.max_w;
        let mut max_w: u8 = region.min_w;
        let mut l: u8 = region.min_l;
        while l <= region.max_l
            invariant
                self.wf(),
                self.frames(region),
                h0 < self.dims().2,
                bits == bools(*member),
                bits.len() >= self.volume(),
                region.min_l <= l <= region.max_l + 1,
                region.min_l <= min_l <= region.max_l,
                region.min_l <= max_l <= region.max_l,
                region.min_w <= min_w <= region.max_w,
                region.min_w <= max_w <= region.max_w,
                !found ==> forall|tl: int, tw: int|
                    region.spans(tl, tw) && tl < l ==> !#[trigger] self.marks(
                        bits,
                        (tl, tw, h0 as int),
                    ),
                found ==> {
                    &&& min_l <= max_l < l
                    &&& min_w <= max_w
                    &&& self.marks(bits, (min_l as int, at_min_l, h0 as int)) && min_w <= at_min_l
                        <= max_w
                    &&& self.marks(bits, (max_l as int, at_max_l, h0 as int)) && min_w <= at_max_l
                        <= max_w
                    &&& self.marks(bits, (at_min_w, min_w as int, h0 as int)) && min_l <= at_min_w
                        <= max_l
                    &&& self.marks(bits, (at_max_w, max_w as int, h0 as int)) && min_l <= at_max_w
                        <= max_l
                    &&& forall|tl: int, tw: int|
                        region.spans(tl, tw) && tl < l && #[trigger] self.marks(
                            bits,
                            (tl, tw, h0 as int),
                        ) ==> min_l <= tl <= max_l && min_w <= tw <= max_w
                },
            decreases region.max_l + 1 - l,
        {
            let mut w: u8 = region.min_w;
            while w <= region.max_w
                invariant
                    self.wf(),
                    self.frames(region),
                    h0 < self.dims().2,
                    bits == bools(*member),
                    bits.len() >= self.volume(),
                    region.min_l <= l <= region.max_l,
                    region.min_w <= w <= region.max_w + 1,
                    region.min_l <= min_l <= region.max_l,
                    region.min_l <= max_l <= region.max_l,
                    region.min_w <= min_w <= region.max_w,
                    region.min_w <= max_w <= region.max_w,
                    !found ==> forall|tl: int, tw: int|
                        region.spans(tl, tw) && (tl < l || (tl == l && tw < w))
                            ==> !#[trigger] self.marks(bits, (tl, tw, h0 as int)),
                    found ==> {
                        &&& min_l <= max_l <= l
                        &&& min_w <= max_w
                        &&& self.marks(bits, (min_l as int, at_min_l, h0 as int)) && min_w
                            <= at_min_l <= max_w
                        &&& self.marks(bits, (max_l as int, at_max_l, h0 as int)) && min_w
                            <= at_max_l <= max_w
                        &&& self.marks(bits, (at_min_w, min_w as int, h0 as int)) && min_l
                            <= at_min_w <= max_l
                        &&& self.marks(bits, (at_max_w, max_w as int, h0 as int)) && min_l
                            <= at_max_w <= max_l
                        &&& forall|tl: int, tw: int|
                            region.spans(tl, tw) && (tl < l || (tl == l && tw < w))
                                && #[trigger] self.marks(bits, (tl, tw, h0 as int)) ==> min_l <= tl
                                <= max_l && min_w <= tw <= max_w
                    },
                decreases region.max_w + 1 - w,
            {
                if self.was_visited(member, l, w, h0) {
                    if !found {
                        found = true;
                        min_l = l;
                        max_l = l;
                        min_w = w;
                        max_w = w;
                        proof {
                            at_min_l = w as int;
                            at_max_l = w as int;
                            at_min_w = l as int;
                            at_max_w = l as int;
                        }
                    } else {
                        if l > max_l {
                            max_l = l;
                            proof {
                                at_max_l = w as int;
                            }
                        }
                        if w < min_w {
                            min_w = w;
                            proof {
                                at_min_w = l as int;
                            }
                        }
                        if w > max_w {
                            max_w = w;
                            proof {
                                at_max_w = l as int;
                            }
                        }
                    }
                }
                w += 1;
            }
            l += 1;
        }
        if !found {
            return None;
        }
        let width: u8 = max_w - min_w + 1;
        let mut ws_included: Vec<BTreeSet<u8>> = Vec::new();
        let mut cur_l: u8 = min_l;
        while cur_l <= max_l
            invariant
                self.wf(),
                self.frames(region),
                h0 < self.dims().2,
                bits == bools(*member),
                bits.len() >= self.volume(),
                region.min_l <= min_l <= max_l <= region.max_l,
                region.min_w <= min_w <= max_w <= region.max_w,
                width == max_w - min_w + 1,
                min_l <= cur_l <= max_l + 1,
                ws_included.len() == cur_l - min_l,
                forall|rl: int, rw: u8|
                    0 <= rl < ws_included.len() ==> (#[trigger] ws_included[rl]@.contains(rw) <==> rw
                        < width && self.marks(bits, (rl + min_l, rw + min_w, h0 as int))),
            decreases max_l + 1 - cur_l,
        {
            let mut ws: BTreeSet<u8> = BTreeSet::new();
            let mut cur_w: u8 = min_w;
            while cur_w <= max_w
                invariant
                    self.wf(),
                    self.frames(region),
                    h0 < self.dims().2,
                    bits == bools(*member),
                    bits.len() >= self.volume(),
                    region.min_l <= min_l <= cur_l <= max_l <= region.max_l,
                    region.min_w <= min_w <= max_w <= region.max_w,
                    width == max_w - min_w + 1,
                    min_w <= cur_w <= max_w + 1,
                    forall|rw: u8|
                        #[trigger] ws@.contains(rw) <==> rw < cur_w - min_w && self.marks(
                            bits,
                            (cur_l as int, rw + min_w, h0 as int),
                        ),
                decreases max_w + 1 - cur_w,
            {
                if self.was_visited(member, cur_l, cur_w, h0) {
                    ws.insert(cur_w - min_w);
                }
                cur_w += 1;
            }
            let ghost before = ws_included@;
            ws_included.push(ws);
            proof {
                assert forall|rl: int, rw: u8| 0 <= rl < ws_included.len() implies (
                #[trigger] ws_included[rl]@.contains(rw) <==> rw < width && self.marks(
                    bits,
                    (rl + min_l, rw + min_w, h0 as int),
                )) by {
                    if rl < before.len() {
                        assert(ws_included[rl] == before[rl]);
                    }
                }
            }
            cur_l += 1;
        }
        proof {
            let columns = ws_included@;
            assert(columns.len() == max_l - min_l + 1);
            assert(columns[0]@.contains((at_min_l - min_w) as u8));
            assert(columns[columns.len() - 1]@.contains((at_max_l - min_w) as u8));
            assert(columns[at_min_w - min_l]@.contains(0u8));
            assert(columns[at_max_w - min_l]@.contains((width - 1) as u8));
            assert(snug(columns, width as int));
        }
        let chunk = Chunk::of_units(unit_brick, color, min_l, min_w, h0, width, height, ws_included);
        proof {
            assert forall|c: Cell|
                #[trigger] chunk.covers(c) <==> region.spans(c.0, c.1) && self.marks(
                    bits,
                    (c.0, c.1, h0 as int),
                ) && h0 <= c.2 < h0 + height by {
                let rl = c.0 - min_l;
                let rw = c.1 - min_w;
                if region.spans(c.0, c.1) && self.marks(bits, (c.0, c.1, h0 as int)) {
                    assert(min_l <= c.0 <= max_l && min_w <= c.1 <= max_w);
                    assert(ws_included[rl]@.contains(rw as u8));
                }
                if chunk.has_column(rl, rw) {
                    assert(ws_included[rl]@.contains(rw as u8));
                }
            }
        }
        Some(chunk)
    }
}

/// What one flood fill found: the voxel at which it began, the bits that were set
/// before it, the unit brick and the color of that voxel, and the place and the number
/// of the chunks that were made of the region.
pub struct Found<U, C> {
    pub seed: Cell,
    pub blocked: Seq<bool>,
    pub brick: U,
    pub color: C,
    pub first: int,
    pub count: int,
}

/// Whether voxel `a` is looked at before voxel `b` when the slab is searched for the
/// first voxels of regions: by w, then by l, then by h.
pub open spec fn comes_before(a: Cell, b: Cell) -> bool {
    a.1 < b.1 || (a.1 == b.1 && (a.0 < b.0 || (a.0 == b.0 && a.2 < b.2)))
}

/// Whether the chunks are stacked from the bottom up, and of two chunks in a row that
/// touch, one has a column that the other has not.
pub open spec fn stacked<U: UnitBrick, B: NonUnitBrick<U>, C: Copy>(
    chunks: Seq<Chunk<U, B, C>>,
) -> bool {
    forall|i: int|
        0 <= i < chunks.len() - 1 ==> {
            let lower = #[trigger] chunks[i];
            let upper = chunks[i + 1];
            &&& lower.origin().2 + lower.dims().2 <= upper.origin().2
            &&& lower.origin().2 + lower.dims().2 == upper.origin().2 ==> exists|l: int, w: int|
                lower.covers((l, w, lower.origin().2)) != #[trigger] upper.covers(
                    (l, w, upper.origin().2),
                )
        }
}

impl<U: UnitBrick, C: Color> Slab<U, C> {
    /// Whether the chunks are stacked and end at or below height `from`, and the last of
    /// them, if it ends at `from`, has a column that the region has not at `from`, or the
    /// other way round.
    pub open spec fn stacked_below<B: NonUnitBrick<U>>(
        &self,
        chunks: Seq<Chunk<U, B, C>>,
        bits: Seq<bool>,
        region: &Region,
        from: int,
    ) -> bool {
        &&& stacked(chunks)
        &&& chunks.len() > 0 ==> {
            let last = chunks.last();
            &&& last.origin().2 + last.dims().2 <= from
            &&& last.origin().2 + last.dims().2 == from ==> exists|l: int, w: int|
                region.spans(l, w) && last.covers((l, w, last.origin().2)) != #[trigger] self.marks(
                    bits,
                    (l, w, from),
                )
        }
    }

    /// Whether the chunks are filled with unit bricks and have the given unit brick and
    /// color.
    pub open spec fn all_units<B: NonUnitBrick<U>>(
        chunks: Seq<Chunk<U, B, C>>,
        unit_brick: U,
        color: C,
    ) -> bool {
        forall|i: int|
            0 <= i < chunks.len() ==> {
                &&& (#[trigger] chunks[i]).wf()
                &&& chunks[i].is_units()
                &&& chunks[i].spec_unit_brick() == unit_brick
                &&& chunks[i].spec_color() == color
            }
    }

    /// Cuts a region into chunks: one for each longest run of heights at which the region
    /// has the same columns, from the bottom up.
    pub fn slice_chunk<B: NonUnitBrick<U>>(
        &self,
        member: &BoolVec,
        region: &Region,
        unit_brick: U,
        color: C,
    ) -> (slices: Vec<Chunk<U, B, C>>)
        requires
            self.wf(),
            self.frames(region),
            bools(*member).len() >= self.volume(),
            forall|c: Cell|
                self.in_box(c) && #[trigger] self.marks(bools(*member), c) ==> region.bounds(c),
        ensures
            Self::all_units(slices@, unit_brick, color),
            disjoint(slices@),
            stacked(slices@),
            forall|c: Cell| #[trigger]
                covered(slices@, c) <==> self.in_box(c) && self.marks(bools(*member), c),
    {
        let ghost bits = bools(*member);
        let mut slices: Vec<Chunk<U, B, C>> = Vec::new();
        let mut slice_h: u8 = region.min_h;
        let mut h: u8 = region.min_h;
        while h <= region.max_h
            invariant
                self.wf(),
                self.frames(region),
                bits == bools(*member),
                bits.len() >= self.volume(),
                forall|c: Cell| self.in_box(c) && #[trigger] self.marks(bits, c) ==> region.bounds(c),
                region.min_h <= slice_h <= h <= region.max_h + 1,
                slice_h <= region.max_h,
                forall|hh: int|
                    slice_h <= hh < h ==> #[trigger] self.columns_match(
                        bits,
                        region,
                        slice_h as int,
                        hh,
                    ),
                Self::all_units(slices@, unit_brick, color),
                disjoint(slices@),
                self.stacked_below(slices@, bits, region, slice_h as int),
                forall|i: int, c: Cell|
                    0 <= i < slices@.len() && #[trigger] slices@[i].covers(c) ==> c.2 < slice_h,
                forall|c: Cell| #[trigger]
                    covered(slices@, c) <==> self.in_box(c) && self.marks(bits, c) && c.2 < slice_h,
            decreases region.max_h + 1 - h,
        {
            if h > slice_h && !self.same_columns(member, region, slice_h, h) {
                let ghost before = slices@;
                self.close_run(member, region, unit_brick, color, &mut slices, slice_h, h);
                proof {
                    let (l, w) = choose|l: int, w: int|
                        region.spans(l, w) && #[trigger] self.marks(bits, (l, w, slice_h as int))
                            != self.marks(bits, (l, w, h as int));
                    if slices@.len() > before.len() {
                        let last = slices@.last();
                        assert(last.covers((l, w, slice_h as int)) == self.marks(
                            bits,
                            (l, w, slice_h as int),
                        ));
                        assert(last.covers((l, w, last.origin().2)) != self.marks(
                            bits,
                            (l, w, h as int),
                        ));
                    }
                }
                slice_h = h;
            }
            proof {
                assert forall|hh: int| slice_h <= hh < h + 1 implies #[trigger] self.columns_match(
                    bits,
                    region,
                    slice_h as int,
                    hh,
                ) by {
                    if hh == slice_h {
                        assert(self.columns_match(bits, region, slice_h as int, slice_h as int));
                    }
                }
            }
            h += 1;
        }
        self.close_run(member, region, unit_brick, color, &mut slices, slice_h, h);
        proof {
            assert forall|c: Cell| #[trigger]
                covered(slices@, c) <==> self.in_box(c) && self.marks(bits, c) by {
                if self.in_box(c) && self.marks(bits, c) {
                    assert(region.bounds(c));
                }
            }
        }
        slices
    }

    /// Adds the chunk of the heights from `from` up to, not including, `to`, at which
    /// the region has the same columns.
    #[verifier::rlimit(60)]
    fn close_run<B: NonUnitBrick<U>>(
        &self,
        member: &BoolVec,
        region: &Region,
        unit_brick: U,
        color: C,
        slices: &mut Vec<Chunk<U, B, C>>,
        from: u8,
        to: u8,
    )
        requires
            self.wf(),
            self.frames(region),
            bools(*member).len() >= self.volume(),
            forall|c: Cell|
                self.in_box(c) && #[trigger] self.marks(bools(*member), c) ==> region.bounds(c),
            region.min_h <= from < to <= region.max_h + 1,
            forall|hh: int|
                from <= hh < to ==> #[trigger] self.columns_match(
                    bools(*member),
                    region,
                    from as int,
                    hh,
                ),
            Self::all_units(old(slices)@, unit_brick, color),
            disjoint(old(slices)@),
            self.stacked_below(old(slices)@, bools(*member), region, from as int),
            forall|i: int, c: Cell|
                0 <= i < old(slices)@.len() && #[trigger] old(slices)@[i].covers(c) ==> c.2 < from,
            forall|c: Cell| #[trigger]
                covered(old(slices)@, c) <==> self.in_box(c) && self.marks(bools(*member), c) && c.2
                    < from,
        ensures
            Self::all_units(final(slices)@, unit_brick, color),
            disjoint(final(slices)@),
            stacked(final(slices)@),
            final(slices)@.len() == old(slices)@.len() || final(slices)@.len() == old(slices)@.len()
                + 1,
            final(slices)@.len() == old(slices)@.len() ==> final(slices)@ == old(slices)@,
            final(slices)@.len() > old(slices)@.len() ==> {
                let last = final(slices)@.last();
                &&& last.origin().2 == from
                &&& last.dims().2 == to - from
                &&& forall|c: Cell|
                    #[trigger] last.covers(c) <==> region.spans(c.0, c.1) && self.marks(
                        bools(*member),
                        (c.0, c.1, from as int),
                    ) && from <= c.2 < to
            },
            forall|i: int, c: Cell|
                0 <= i < final(slices)@.len() && #[trigger] final(slices)@[i].covers(c) ==> c.2
                    < to,
            forall|c: Cell| #[trigger]
                covered(final(slices)@, c) <==> self.in_box(c) && self.marks(bools(*member), c)
                    && c.2 < to,
    {
        let ghost bits = bools(*member);
        let ghost before = slices@;
        match self.layer_chunk::<B>(member, region, from, to - from, unit_brick, color) {
            Some(chunk) => {
                slices.push(chunk);
                proof {
                    assert forall|c: Cell| #[trigger]
                        covered(slices@, c) <==> self.in_box(c) && self.marks(bits, c) && c.2
                            < to by {
                        lemma_covered_push(before, chunk, c);
                        assert(covered(before, c) <==> self.in_box(c) && self.marks(bits, c) && c.2
                            < from);
                        if from <= c.2 < to && region.spans(c.0, c.1) {
                            assert(self.columns_match(bits, region, from as int, c.2));
                            assert(self.marks(bits, (c.0, c.1, from as int)) == self.marks(
                                bits,
                                (c.0, c.1, c.2),
                            ));
                        }
                        if self.in_box(c) && self.marks(bits, c) {
                            assert(region.bounds(c));
                        }
                    }
                    assert forall|i: int| 0 <= i < slices@.len() implies {
                        &&& (#[trigger] slices@[i]).wf()
                        &&& slices@[i].is_units()
                        &&& slices@[i].spec_unit_brick() == unit_brick
                        &&& slices@[i].spec_color() == color
                    } by {
                        if i < before.len() {
                            assert(slices@[i] == before[i]);
                        }
                    }
                    assert forall|i: int, c: Cell|
                        0 <= i < slices@.len() && #[trigger] slices@[i].covers(c) implies c.2
                        < to by {
                        if i < before.len() {
                            assert(slices@[i] == before[i]);
                        }
                    }
                    assert forall|i: int, j: int, c: Cell|
                        0 <= i < slices@.len() && 0 <= j < slices@.len() && i != j implies !(#[trigger] slices@[i].covers(c) && #[trigger] slices@[j].covers(c)) by {
                        if i < before.len() {
                            assert(slices@[i] == before[i]);
                        }
                        if j < before.len() {
                            assert(slices@[j] == before[j]);
                        }
                    }
                    assert(stacked(slices@)) by {
                        assert forall|i: int| 0 <= i < slices@.len() - 1 implies {
                            let lower = #[trigger] slices@[i];
                            let upper = slices@[i + 1];
                            &&& lower.origin().2 + lower.dims().2 <= upper.origin().2
                            &&& lower.origin().2 + lower.dims().2 == upper.origin().2
                                ==> exists|l: int, w: int|
                                lower.covers((l, w, lower.origin().2)) != #[trigger] upper.covers(
                                    (l, w, upper.origin().2),
                                )
                        } by {
                            if i + 1 < before.len() {
                                assert(slices@[i] == before[i]);
                                assert(slices@[i + 1] == before[i + 1]);
                            } else {
                                assert(slices@[i] == before.last());
                                assert(slices@[i + 1] == chunk);
                                let last = before.last();
                                if last.origin().2 + last.dims().2 == from {
                                    let (l, w) = choose|l: int, w: int|
                                        region.spans(l, w) && last.covers((l, w, last.origin().2))
                                            != #[trigger] self.marks(bits, (l, w, from as int));
                                    assert(chunk.covers((l, w, from as int)) == self.marks(
                                        bits,
                                        (l, w, from as int),
                                    ));
                                    assert(last.covers((l, w, last.origin().2)) != chunk.covers(
                                        (l, w, chunk.origin().2),
                                    ));
                                }
                            }
                        }
                    }
                }
            },
            None => {
                proof {
                    assert forall|c: Cell| #[trigger]
                        covered(slices@, c) <==> self.in_box(c) && self.marks(bits, c) && c.2
                            < to by {
                        assert(covered(before, c) <==> self.in_box(c) && self.marks(bits, c) && c.2
                            < from);
                        if self.in_box(c) && self.marks(bits, c) && from <= c.2 < to {
                            assert(region.bounds(c));
                            assert(self.columns_match(bits, region, from as int, c.2));
                            assert(self.marks(bits, (c.0, c.1, from as int)) == self.marks(
                                bits,
                                (c.0, c.1, c.2),
                            ));
                        }
                    }
                }
            },
        }
    }

    /// Clears the bits of the region's voxels.
    fn clear_members(&self, member: &mut BoolVec, region: &Region)
        requires
            self.wf(),
            bools(*old(member)).len() >= self.volume(),
            forall|i: int|
                0 <= i < region.cells@.len() ==> self.has(cell_of(#[trigger] region.cells@[i])),
            forall|c: Cell|
                self.in_box(c) ==> (#[trigger] self.marks(bools(*old(member)), c) <==> holds(
                    region.cells@,
                    c,
                )),
        ensures
            bools(*final(member)).len() == bools(*old(member)).len(),
            forall|c: Cell| self.in_box(c) ==> !#[trigger] self.marks(bools(*final(member)), c),
    {
        let mut k: usize = 0;
        while k < region.cells.len()
            invariant
                self.wf(),
                k <= region.cells.len(),
                bools(*member).len() == bools(*old(member)).len(),
                bools(*member).len() >= self.volume(),
                forall|i: int|
                    0 <= i < region.cells@.len() ==> self.has(cell_of(#[trigger] region.cells@[i])),
                forall|c: Cell|
                    self.in_box(c) && #[trigger] self.marks(bools(*member), c) ==> exists|j: int|
                        k <= j < region.cells@.len() && cell_of(#[trigger] region.cells@[j]) == c,
            decreases region.cells.len() - k,
        {
            let cell = region.cells[k];
            let ghost c = cell_of(cell);
            let ghost before = bools(*member);
            proof {
                assert(self.has(c));
                self.lemma_has_index(c);
                self.lemma_unmark(before, c);
            }
            let index = self.visited_index(cell.0, cell.1, cell.2);
            set_bit(member, index, false);
            proof {
                assert forall|d: Cell|
                    self.in_box(d) && #[trigger] self.marks(bools(*member), d) implies exists|j: int|
                    k + 1 <= j < region.cells@.len() && cell_of(#[trigger] region.cells@[j])
                        == d by {
                    assert(self.marks(before, d) && d != c);
                    let j = choose|j: int|
                        k <= j < region.cells@.len() && cell_of(#[trigger] region.cells@[j]) == d;
                    assert(j != k);
                }
            }
            k += 1;
        }
    }
}

/// Whether two chunks have the same unit brick, color and position and hold the same
/// voxels.
pub open spec fn same_shape<U: UnitBrick, B: NonUnitBrick<U>, C: Copy>(
    before: Chunk<U, B, C>,
    after: Chunk<U, B, C>,
) -> bool {
    &&& after.spec_unit_brick() == before.spec_unit_brick()
    &&& after.spec_color() == before.spec_color()
    &&& after.origin() == before.origin()
    &&& after.dims() == before.dims()
    &&& forall|l: int, w: int| #[trigger] after.has_column(l, w) == before.has_column(l, w)
}

/// Whether the chunks of two lists have, chunk by chunk, the same shape.
pub open spec fn same_shapes<U: UnitBrick, B: NonUnitBrick<U>, C: Copy>(
    before: Seq<Chunk<U, B, C>>,
    after: Seq<Chunk<U, B, C>>,
) -> bool {
    &&& after.len() == before.len()
    &&& forall|k: int| 0 <= k < after.len() ==> same_shape(before[k], #[trigger] after[k])
}

/// Two lists of chunks of the same shapes hold the same voxels.
pub proof fn lemma_covered_same_shapes<U: UnitBrick, B: NonUnitBrick<U>, C: Copy>(
    before: Seq<Chunk<U, B, C>>,
    after: Seq<Chunk<U, B, C>>,
    c: Cell,
)
    requires
        same_shapes(before, after),
    ensures
        covered(before, c) == covered(after, c),
{
    if covered(before, c) {
        let i = choose|i: int| 0 <= i < before.len() && #[trigger] before[i].covers(c);
        assert(same_shape(before[i], after[i]));
        assert(after[i].covers(c));
    }
    if covered(after, c) {
        let i = choose|i: int| 0 <= i < after.len() && #[trigger] after[i].covers(c);
        assert(same_shape(before[i], after[i]));
        assert(before[i].covers(c));
    }
}

/// Chunks of the same shapes as stacked chunks are stacked.
pub proof fn lemma_stacked_same<U: UnitBrick, B: NonUnitBrick<U>, C: Copy>(
    before: Seq<Chunk<U, B, C>>,
    after: Seq<Chunk<U, B, C>>,
)
    requires
        same_shapes(before, after),
        stacked(before),
    ensures
        stacked(after),
{
    assert forall|i: int| 0 <= i < after.len() - 1 implies {
        let lower = #[trigger] after[i];
        let upper = after[i + 1];
        &&& lower.origin().2 + lower.dims().2 <= upper.origin().2
        &&& lower.origin().2 + lower.dims().2 == upper.origin().2 ==> exists|l: int, w: int|
            lower.covers((l, w, lower.origin().2)) != #[trigger] upper.covers(
                (l, w, upper.origin().2),
            )
    } by {
        let lower = before[i];
        let upper = before[i + 1];
        assert(same_shape(lower, after[i]));
        assert(same_shape(upper, after[i + 1]));
        if lower.origin().2 + lower.dims().2 == upper.origin().2 {
            let (l, w) = choose|l: int, w: int|
                lower.covers((l, w, lower.origin().2)) != #[trigger] upper.covers(
                    (l, w, upper.origin().2),
                );
            assert(after[i].covers((l, w, lower.origin().2)) == lower.covers(
                (l, w, lower.origin().2),
            ));
            assert(after[i + 1].covers((l, w, upper.origin().2)) == upper.covers(
                (l, w, upper.origin().2),
            ));
        }
    }
}

/// The voxels held by two lists of chunks are those held by the two lists in one.
pub proof fn lemma_covered_add<U: UnitBrick, B: NonUnitBrick<U>, C: Copy>(
    first: Seq<Chunk<U, B, C>>,
    second: Seq<Chunk<U, B, C>>,
    c: Cell,
)
    ensures
        covered(first + second, c) <==> covered(first, c) || covered(second, c),
{
    let both = first + second;
    if covered(first, c) {
        let i = choose|i: int| 0 <= i < first.len() && #[trigger] first[i].covers(c);
        assert(both[i].covers(c));
    }
    if covered(second, c) {
        let i = choose|i: int| 0 <= i < second.len() && #[trigger] second[i].covers(c);
        assert(both[first.len() + i] == second[i]);
        assert(both[first.len() + i].covers(c));
    }
    if covered(both, c) {
        let i = choose|i: int| 0 <= i < both.len() && #[trigger] both[i].covers(c);
        if i < first.len() {
            assert(first[i].covers(c));
        } else {
            assert(both[i] == second[i - first.len()]);
            assert(second[i - first.len()].covers(c));
        }
    }
}

impl<U: UnitBrick, C: Color> Slab<U, C> {
    /// Whether the chunks hold exactly the visited voxels, each voxel once, and every
    /// voxel of a chunk is a voxel of the slab that has the chunk's unit brick and color.
    pub open spec fn charted<B: NonUnitBrick<U>>(
        &self,
        visited: Seq<bool>,
        chunks: Seq<Chunk<U, B, C>>,
    ) -> bool {
        &&& forall|i: int|
            0 <= i < chunks.len() ==> (#[trigger] chunks[i]).wf() && chunks[i].is_units()
        &&& disjoint(chunks)
        &&& forall|c: Cell| #[trigger] covered(chunks, c) <==> self.in_box(c) && self.marks(visited, c)
        &&& forall|c: Cell| self.in_box(c) && #[trigger] self.marks(visited, c) ==> self.has(c)
        &&& forall|i: int, c: Cell|
            0 <= i < chunks.len() && #[trigger] chunks[i].covers(c) ==> self.agrees(
                c,
                chunks[i].spec_unit_brick(),
                chunks[i].spec_color(),
            )
    }

    /// A voxel of the region of `seed` is `seed` or has, as `==` compares them, the unit
    /// brick and color that the fill began with.
    pub proof fn lemma_region_alike(&self, blocked: Seq<bool>, seed: Cell, brick: U, color: C, c: Cell)
        requires
            self.in_region(blocked, seed, brick, color, c),
        ensures
            c == seed || self.alike(c, brick, color),
    {
        let path = choose|path: Seq<Cell>| #[trigger]
            self.is_path(blocked, seed, brick, color, path) && path.last() == c;
        if path.len() > 1 {
            let i = path.len() - 1;
            assert(adjacent(path[i - 1], path[i]) && self.admits(blocked, path[i], brick, color));
        }
    }

    /// Whether the region was found rightly: it began at the first voxel, in the order of
    /// w, then l, then h, that no earlier chunk holds; its chunks have the unit brick and
    /// the color of that voxel and are stacked from the bottom up; and, where `==` follows
    /// its specification, they hold exactly the voxels that a path leads to from that
    /// voxel, each step going to a voxel that shares a face with the last, is held by no
    /// earlier chunk and has, as `==` compares them, that unit brick and color.
    #[verifier::opaque]
    pub open spec fn found_ok<B: NonUnitBrick<U>>(
        &self,
        chunks: Seq<Chunk<U, B, C>>,
        found: Found<U, C>,
    ) -> bool {
        let own = chunks.subrange(found.first, found.first + found.count);
        &&& 0 <= found.first
        &&& 0 <= found.count
        &&& found.first + found.count <= chunks.len()
        &&& self.has(found.seed)
        &&& found.brick == self.brick_at(found.seed)
        &&& found.color == self.color_at(found.seed.0, found.seed.1)
        &&& !self.marks(found.blocked, found.seed)
        &&& forall|c: Cell|
            self.has(c) && #[trigger] comes_before(c, found.seed) ==> self.marks(found.blocked, c)
        &&& forall|c: Cell|
            self.in_box(c) ==> (#[trigger] self.marks(found.blocked, c) <==> covered(
                chunks.take(found.first),
                c,
            ))
        &&& forall|i: int|
            found.first <= i < found.first + found.count ==> (#[trigger] chunks[i]).spec_unit_brick()
                == found.brick && chunks[i].spec_color() == found.color
        &&& stacked(own)
        &&& U::obeys_eq_spec() && C::obeys_eq_spec() ==> forall|c: Cell| #[trigger]
            covered(own, c) <==> self.in_region(
                found.blocked,
                found.seed,
                found.brick,
                found.color,
                c,
            )
    }

    /// Whether the chunks are those of the regions, one region after another.
    #[verifier::opaque]
    pub open spec fn regions_ok<B: NonUnitBrick<U>>(
        &self,
        chunks: Seq<Chunk<U, B, C>>,
        founds: Seq<Found<U, C>>,
    ) -> bool {
        &&& forall|r: int| 0 <= r < founds.len() ==> self.found_ok(chunks, #[trigger] founds[r])
        &&& founds.len() == 0 ==> chunks.len() == 0
        &&& founds.len() > 0 ==> founds[0].first == 0 && founds.last().first + founds.last().count
            == chunks.len()
        &&& forall|r: int|
            0 <= r < founds.len() - 1 ==> (#[trigger] founds[r]).first + founds[r].count == founds[r
                + 1].first
    }

    /// A region that was found rightly stays so when chunks are added behind.
    pub proof fn lemma_found_extends<B: NonUnitBrick<U>>(
        &self,
        chunks: Seq<Chunk<U, B, C>>,
        added: Seq<Chunk<U, B, C>>,
        found: Found<U, C>,
    )
        requires
            self.found_ok(chunks, found),
        ensures
            self.found_ok(chunks + added, found),
    {
        reveal(Slab::found_ok);
        let longer = chunks + added;
        assert(longer.take(found.first) =~= chunks.take(found.first));
        assert(longer.subrange(found.first, found.first + found.count) =~= chunks.subrange(
            found.first,
            found.first + found.count,
        ));
        assert forall|i: int| found.first <= i < found.first + found.count implies (
        #[trigger] longer[i]).spec_unit_brick() == found.brick && longer[i].spec_color()
            == found.color by {
            assert(longer[i] == chunks[i]);
        }
    }

    /// The chunks of a new region, added behind chunks that hold the visited voxels, give
    /// chunks that hold the voxels that are visited now.
    pub proof fn lemma_charted_append<B: NonUnitBrick<U>>(
        &self,
        blocked: Seq<bool>,
        now: Seq<bool>,
        member: Seq<bool>,
        before: Seq<Chunk<U, B, C>>,
        added: Seq<Chunk<U, B, C>>,
        cells: Seq<(u8, u8, u8)>,
        seed: Cell,
        brick: U,
        color: C,
    )
        requires
            self.wf(),
            self.charted(blocked, before),
            Self::all_units(added, brick, color),
            disjoint(added),
            forall|c: Cell| #[trigger] covered(added, c) <==> self.in_box(c) && self.marks(member, c),
            forall|c: Cell| self.in_box(c) ==> (#[trigger] self.marks(member, c) <==> holds(cells, c)),
            self.visited_is(now, blocked, cells),
            forall|i: int|
                0 <= i < cells.len() ==> self.has(cell_of(#[trigger] cells[i])) && !self.marks(
                    blocked,
                    cell_of(cells[i]),
                ),
            brick == self.brick_at(seed),
            color == self.color_at(seed.0, seed.1),
            U::obeys_eq_spec() && C::obeys_eq_spec() ==> forall|c: Cell|
                holds(cells, c) <==> #[trigger] self.in_region(blocked, seed, brick, color, c),
        ensures
            self.charted(now, before + added),
    {
        let chunks = before + added;
        assert forall|c: Cell| holds(cells, c) implies self.has(c) && self.in_box(c) && !self.marks(
            blocked,
            c,
        ) && self.agrees(c, brick, color) by {
            let i = choose|i: int| 0 <= i < cells.len() && cells[i] == bytes_of(c);
            assert(cell_of(cells[i]) == c);
            self.lemma_has_index(c);
            if U::obeys_eq_spec() && C::obeys_eq_spec() {
                assert(self.in_region(blocked, seed, brick, color, c));
                self.lemma_region_alike(blocked, seed, brick, color, c);
            }
        }
        assert forall|c: Cell| #[trigger] covered(chunks, c) <==> self.in_box(c) && self.marks(
            now,
            c,
        ) by {
            lemma_covered_add(before, added, c);
            assert(covered(before, c) <==> self.in_box(c) && self.marks(blocked, c));
            assert(covered(added, c) <==> self.in_box(c) && self.marks(member, c));
            if self.in_box(c) {
                assert(self.marks(now, c) <==> self.marks(blocked, c) || holds(cells, c));
                assert(self.marks(member, c) <==> holds(cells, c));
            }
        }
        assert forall|c: Cell| self.in_box(c) && #[trigger] self.marks(now, c) implies self.has(
            c,
        ) by {
            assert(self.marks(now, c) <==> self.marks(blocked, c) || holds(cells, c));
        }
        assert forall|i: int| 0 <= i < chunks.len() implies (#[trigger] chunks[i]).wf()
            && chunks[i].is_units() by {
            if i < before.len() {
                assert(chunks[i] == before[i]);
            } else {
                assert(chunks[i] == added[i - before.len()]);
            }
        }
        assert forall|i: int, c: Cell|
            0 <= i < chunks.len() && #[trigger] chunks[i].covers(c) implies self.agrees(
            c,
            chunks[i].spec_unit_brick(),
            chunks[i].spec_color(),
        ) by {
            if i < before.len() {
                assert(chunks[i] == before[i]);
            } else {
                let k = i - before.len();
                assert(chunks[i] == added[k]);
                assert(added[k].covers(c));
                assert(covered(added, c));
                assert(self.marks(member, c) <==> holds(cells, c));
            }
        }
        assert(disjoint(chunks)) by {
            assert forall|i: int, j: int, c: Cell|
                0 <= i < chunks.len() && 0 <= j < chunks.len() && i != j implies !(
            #[trigger] chunks[i].covers(c) && #[trigger] chunks[j].covers(c)) by {
                if chunks[i].covers(c) && chunks[j].covers(c) {
                    if i < before.len() {
                        assert(chunks[i] == before[i]);
                        assert(covered(before, c));
                    } else {
                        assert(chunks[i] == added[i - before.len()]);
                        assert(covered(added, c));
                    }
                    if j < before.len() {
                        assert(chunks[j] == before[j]);
                        assert(covered(before, c));
                    } else {
                        assert(chunks[j] == added[j - before.len()]);
                        assert(covered(added, c));
                    }
                    assert(self.marks(member, c) <==> holds(cells, c));
                }
            }
        }
    }

    /// Finds the region of voxel (l, w, h), if the voxel is not visited yet, and adds its
    /// chunks.
    fn explore<B: NonUnitBrick<U>>(
        &self,
        visited: &mut BoolVec,
        member: &mut BoolVec,
        chunks: &mut Vec<Chunk<U, B, C>>,
        l: u8,
        w: u8,
        h: u8,
        Ghost(founds): Ghost<Seq<Found<U, C>>>,
    ) -> (r: Ghost<Seq<Found<U, C>>>)
        requires
            self.wf(),
            self.has((l as int, w as int, h as int)),
            bools(*old(visited)).len() >= self.volume(),
            bools(*old(member)).len() >= self.volume(),
            forall|c: Cell| self.in_box(c) ==> !#[trigger] self.marks(bools(*old(member)), c),
            self.charted(bools(*old(visited)), old(chunks)@),
            self.regions_ok(old(chunks)@, founds),
            forall|c: Cell|
                self.has(c) && #[trigger] comes_before(c, (l as int, w as int, h as int))
                    ==> self.marks(bools(*old(visited)), c),
        ensures
            bools(*final(visited)).len() == bools(*old(visited)).len(),
            bools(*final(member)).len() == bools(*old(member)).len(),
            forall|c: Cell| self.in_box(c) ==> !#[trigger] self.marks(bools(*final(member)), c),
            self.charted(bools(*final(visited)), final(chunks)@),
            self.regions_ok(final(chunks)@, r@),
            self.marks(bools(*final(visited)), (l as int, w as int, h as int)),
            forall|c: Cell|
                self.in_box(c) && self.marks(bools(*old(visited)), c) ==> #[trigger] self.marks(
                    bools(*final(visited)),
                    c,
                ),
    {
        let ghost seed = (l as int, w as int, h as int);
        proof {
            self.lemma_has_index(seed);
        }
        if self.was_visited(visited, l, w, h) {
            return Ghost(founds);
        }
        let ghost blocked = bools(*visited);
        let ghost before = chunks@;
        let start_color = self.column_color(l, w);
        let start_brick = self.voxel_brick(l, w, h);
        let region = self.fill_region(visited, member, l, w, h, start_brick, start_color);
        proof {
            assert forall|c: Cell|
                self.in_box(c) && #[trigger] self.marks(bools(*member), c) implies region.bounds(
                c,
            ) by {
                let i = choose|i: int| 0 <= i < region.cells@.len() && region.cells@[i] == bytes_of(c);
                assert(cell_of(region.cells@[i]) == c);
            }
        }
        let mut slices = self.slice_chunk::<B>(member, &region, start_brick, start_color);
        let ghost added = slices@;
        chunks.append(&mut slices);
        let ghost found = Found {
            seed,
            blocked,
            brick: start_brick,
            color: start_color,
            first: before.len() as int,
            count: added.len() as int,
        };
        let ghost next = founds.push(found);
        proof {
            let now = bools(*visited);
            assert(chunks@ == before + added);
            self.lemma_charted_append(
                blocked,
                now,
                bools(*member),
                before,
                added,
                region.cells@,
                seed,
                start_brick,
                start_color,
            );
            assert(self.marks(now, seed)) by {
                assert(region.cells@[0] == bytes_of(seed));
                assert(holds(region.cells@, seed));
            }
            self.lemma_new_found(
                blocked,
                bools(*member),
                before,
                added,
                region.cells@,
                found,
            );
            self.lemma_regions_push(before, added, founds, found);
        }
        self.clear_members(member, &region);
        Ghost(next)
    }

    /// Where a region was found rightly, it was found rightly too for chunks that hold
    /// the same voxels and have the same unit bricks, colors and positions.
    pub proof fn lemma_found_same_shape<B: NonUnitBrick<U>>(
        &self,
        before: Seq<Chunk<U, B, C>>,
        after: Seq<Chunk<U, B, C>>,
        found: Found<U, C>,
    )
        requires
            self.found_ok(before, found),
            same_shapes(before, after),
        ensures
            self.found_ok(after, found),
    {
        reveal(Slab::found_ok);
        let own_before = before.subrange(found.first, found.first + found.count);
        let own_after = after.subrange(found.first, found.first + found.count);
        assert(same_shapes(before.take(found.first), after.take(found.first)));
        assert(same_shapes(own_before, own_after)) by {
            assert forall|k: int| 0 <= k < own_after.len() implies same_shape(
                own_before[k],
                #[trigger] own_after[k],
            ) by {
                assert(own_after[k] == after[found.first + k]);
                assert(own_before[k] == before[found.first + k]);
            }
        }
        assert forall|c: Cell|
            self.in_box(c) implies (#[trigger] self.marks(found.blocked, c) <==> covered(
            after.take(found.first),
            c,
        )) by {
            lemma_covered_same_shapes(before.take(found.first), after.take(found.first), c);
        }
        lemma_stacked_same(own_before, own_after);
        if U::obeys_eq_spec() && C::obeys_eq_spec() {
            assert forall|c: Cell| #[trigger]
                covered(own_after, c) <==> self.in_region(
                    found.blocked,
                    found.seed,
                    found.brick,
                    found.color,
                    c,
                ) by {
                lemma_covered_same_shapes(own_before, own_after, c);
                assert(covered(own_before, c) <==> self.in_region(
                    found.blocked,
                    found.seed,
                    found.brick,
                    found.color,
                    c,
                ));
            }
        }
        assert forall|i: int| found.first <= i < found.first + found.count implies (
        #[trigger] after[i]).spec_unit_brick() == found.brick && after[i].spec_color()
            == found.color by {
            assert(same_shape(before[i], after[i]));
        }
    }

    /// Chunks that hold the same voxels and have the same unit bricks, colors and
    /// positions as the chunks of the regions are the chunks of the regions too.
    pub proof fn lemma_regions_same_shape<B: NonUnitBrick<U>>(
        &self,
        before: Seq<Chunk<U, B, C>>,
        after: Seq<Chunk<U, B, C>>,
        founds: Seq<Found<U, C>>,
    )
        requires
            self.regions_ok(before, founds),
            same_shapes(before, after),
        ensures
            self.regions_ok(after, founds),
    {
        reveal(Slab::regions_ok);
        assert forall|r: int| 0 <= r < founds.len() implies self.found_ok(
            after,
            #[trigger] founds[r],
        ) by {
            self.lemma_found_same_shape(before, after, founds[r]);
        }
    }

    /// With the chunks of one more region, found rightly, the chunks are those of the
    /// regions.
    pub proof fn lemma_regions_push<B: NonUnitBrick<U>>(
        &self,
        before: Seq<Chunk<U, B, C>>,
        added: Seq<Chunk<U, B, C>>,
        founds: Seq<Found<U, C>>,
        found: Found<U, C>,
    )
        requires
            self.regions_ok(before, founds),
            self.found_ok(before + added, found),
            found.first == before.len(),
            found.count == added.len(),
        ensures
            self.regions_ok(before + added, founds.push(found)),
    {
        reveal(Slab::regions_ok);
        let next = founds.push(found);
        let chunks = before + added;
        assert forall|r: int| 0 <= r < next.len() implies self.found_ok(
            chunks,
            #[trigger] next[r],
        ) by {
            if r < founds.len() {
                assert(next[r] == founds[r]);
                self.lemma_found_extends(before, added, founds[r]);
            }
        }
        assert forall|r: int| 0 <= r < next.len() - 1 implies (#[trigger] next[r]).first
            + next[r].count == next[r + 1].first by {
            if r + 1 < founds.len() {
                assert(next[r] == founds[r]);
                assert(next[r + 1] == founds[r + 1]);
            } else {
                assert(next[r] == founds.last());
            }
        }
        if founds.len() > 0 {
            assert(next[0] == founds[0]);
        }
    }

    /// The chunks of a region that was just found are found rightly.
    pub proof fn lemma_new_found<B: NonUnitBrick<U>>(
        &self,
        blocked: Seq<bool>,
        member: Seq<bool>,
        before: Seq<Chunk<U, B, C>>,
        added: Seq<Chunk<U, B, C>>,
        cells: Seq<(u8, u8, u8)>,
        found: Found<U, C>,
    )
        requires
            self.wf(),
            self.charted(blocked, before),
            found.blocked == blocked,
            found.first == before.len(),
            found.count == added.len(),
            self.has(found.seed),
            found.brick == self.brick_at(found.seed),
            found.color == self.color_at(found.seed.0, found.seed.1),
            !self.marks(blocked, found.seed),
            forall|c: Cell|
                self.has(c) && #[trigger] comes_before(c, found.seed) ==> self.marks(blocked, c),
            Self::all_units(added, found.brick, found.color),
            stacked(added),
            forall|c: Cell| #[trigger] covered(added, c) <==> self.in_box(c) && self.marks(member, c),
            forall|c: Cell| self.in_box(c) ==> (#[trigger] self.marks(member, c) <==> holds(cells, c)),
            forall|i: int| 0 <= i < cells.len() ==> self.has(cell_of(#[trigger] cells[i])),
            U::obeys_eq_spec() && C::obeys_eq_spec() ==> forall|c: Cell|
                holds(cells, c) <==> #[trigger] self.in_region(
                    blocked,
                    found.seed,
                    found.brick,
                    found.color,
                    c,
                ),
        ensures
            self.found_ok(before + added, found),
    {
        reveal(Slab::found_ok);
        let chunks = before + added;
        let own = chunks.subrange(found.first, found.first + found.count);
        assert(own =~= added);
        assert(chunks.take(found.first) =~= before);
        assert forall|i: int| found.first <= i < found.first + found.count implies (
        #[trigger] chunks[i]).spec_unit_brick() == found.brick && chunks[i].spec_color()
            == found.color by {
            assert(chunks[i] == added[i - before.len()]);
        }
        if U::obeys_eq_spec() && C::obeys_eq_spec() {
            assert forall|c: Cell| #[trigger]
                covered(own, c) <==> self.in_region(
                    found.blocked,
                    found.seed,
                    found.brick,
                    found.color,
                    c,
                ) by {
                if holds(cells, c) {
                    let i = choose|i: int| 0 <= i < cells.len() && cells[i] == bytes_of(c);
                    assert(cell_of(cells[i]) == c);
                    self.lemma_has_index(c);
                }
                assert(holds(cells, c) <==> self.in_region(
                    blocked,
                    found.seed,
                    found.brick,
                    found.color,
                    c,
                ));
                if self.in_box(c) {
                    assert(self.marks(member, c) <==> holds(cells, c));
                }
            }
        }
    }

    /// The chunks of the slab: each region of voxels that share faces, unit brick and
    /// color, found from its first voxel in the order of w, then l, then h, and cut into
    /// runs of heights with the same columns.
    pub fn build_chunks<B: NonUnitBrick<U>>(&self) -> (r: (
        Vec<Chunk<U, B, C>>,
        Ghost<Seq<Found<U, C>>>,
    ))
        requires
            self.wf(),
            self.volume() <= usize::MAX - 8,
        ensures
            forall|i: int| 0 <= i < r.0@.len() ==> (#[trigger] r.0@[i]).wf() && r.0@[i].is_units(),
            disjoint(r.0@),
            forall|c: Cell| #[trigger] covered(r.0@, c) <==> self.has(c),
            forall|i: int, c: Cell|
                0 <= i < r.0@.len() && #[trigger] r.0@[i].covers(c) ==> self.agrees(
                    c,
                    r.0@[i].spec_unit_brick(),
                    r.0@[i].spec_color(),
                ),
            self.regions_ok(r.0@, r.1@),
    {
        let count = self.voxel_count();
        let mut visited = filled_with(count, false);
        let mut member = filled_with(count, false);
        let mut chunks: Vec<Chunk<U, B, C>> = Vec::new();
        let ghost mut founds: Seq<Found<U, C>> = Seq::empty();
        proof {
            assert forall|c: Cell| !#[trigger] covered(chunks@, c) by {}
            assert(self.regions_ok(chunks@, founds)) by {
                reveal(Slab::regions_ok);
            }
        }
        let mut start_w: u8 = 0;
        while start_w < self.width
            invariant
                self.wf(),
                start_w <= self.width,
                bools(visited).len() >= self.volume(),
                bools(member).len() >= self.volume(),
                forall|c: Cell| self.in_box(c) ==> !#[trigger] self.marks(bools(member), c),
                self.charted(bools(visited), chunks@),
                self.regions_ok(chunks@, founds),
                forall|c: Cell| #[trigger] self.has(c) && c.1 < start_w ==> self.marks(bools(visited), c),
            decreases self.width - start_w,
        {
            let mut start_l: u8 = 0;
            while start_l < self.length
                invariant
                    self.wf(),
                    start_w < self.width,
                    start_l <= self.length,
                    bools(visited).len() >= self.volume(),
                    bools(member).len() >= self.volume(),
                    forall|c: Cell| self.in_box(c) ==> !#[trigger] self.marks(bools(member), c),
                    self.charted(bools(visited), chunks@),
                    self.regions_ok(chunks@, founds),
                    forall|c: Cell|
                        #[trigger] self.has(c) && (c.1 < start_w || (c.1 == start_w && c.0 < start_l))
                            ==> self.marks(bools(visited), c),
                decreases self.length - start_l,
            {
                let start_height = self.column_height(start_l, start_w);
                let mut start_h: u8 = 0;
                while start_h < start_height
                    invariant
                        self.wf(),
                        start_w < self.width,
                        start_l < self.length,
                        start_h <= start_height,
                        start_height == self.height_at(start_l as int, start_w as int),
                        bools(visited).len() >= self.volume(),
                        bools(member).len() >= self.volume(),
                        forall|c: Cell| self.in_box(c) ==> !#[trigger] self.marks(bools(member), c),
                        self.charted(bools(visited), chunks@),
                        self.regions_ok(chunks@, founds),
                        forall|c: Cell|
                            #[trigger] self.has(c) && (c.1 < start_w || (c.1 == start_w && (c.0
                                < start_l || (c.0 == start_l && c.2 < start_h)))) ==> self.marks(
                                bools(visited),
                                c,
                            ),
                    decreases start_height - start_h,
                {
                    let ghost before = bools(visited);
                    let next = self.explore(
                        &mut visited,
                        &mut member,
                        &mut chunks,
                        start_l,
                        start_w,
                        start_h,
                        Ghost(founds),
                    );
                    proof {
                        founds = next@;
                        assert forall|c: Cell|
                            #[trigger] self.has(c) && (c.1 < start_w || (c.1 == start_w && (c.0
                                < start_l || (c.0 == start_l && c.2 < start_h + 1)))) implies self.marks(
                            bools(visited),
                            c,
                        ) by {
                            self.lemma_has_index(c);
                            if !(c.1 == start_w && c.0 == start_l && c.2 == start_h) {
                                assert(self.marks(before, c));
                            }
                        }
                    }
                    start_h += 1;
                }
                start_l += 1;
            }
            start_w += 1;
        }
        proof {
            assert forall|c: Cell| #[trigger] covered(chunks@, c) <==> self.has(c) by {
                if self.has(c) {
                    self.lemma_has_index(c);
                    assert(self.marks(bools(visited), c));
                }
            }
        }
        (chunks, Ghost(founds))
    }
}

} // verus!
