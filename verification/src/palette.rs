//! Nearest colors: by a search through a list of colors, and by a palette that keeps its
//! colors in a k-d tree of the `kd_tree` crate.

use vstd::prelude::*;
use vstd::std_specs::convert::IntoSpec;
use kd_tree::KdTreeN;
use crate::color::{Color, RawColor};
use crate::pixels::Palette;

verus! {

/// A `kd_tree::KdTreeN` of points of four coordinates, each with the place of its color
/// in a palette. The verifier sees nothing inside it; `tree_entries` names what it
/// holds.
#[verifier::external_body]
pub struct ColorTree {
    tree: KdTreeN<([i64; 4], usize), typenum::U4>,
}

/// A point of four coordinates with the place of its color in the palette.
pub type Entry = (int, int, int, int, int);

/// The points that a tree holds, each with the place of its color.
pub uninterp spec fn tree_entries(tree: ColorTree) -> Set<Entry>;

/// The place of the color that `KdTreeN::nearest` finds in the tree for the point (red,
/// green, blue, alpha).
pub uninterp spec fn nearest_entry(
    tree: ColorTree,
    red: int,
    green: int,
    blue: int,
    alpha: int,
) -> Option<int>;

/// The square of the distance between an entry's point and the point (red, green, blue,
/// alpha).
pub open spec fn entry_distance(entry: Entry, red: int, green: int, blue: int, alpha: int) -> int {
    (entry.0 - red) * (entry.0 - red) + (entry.1 - green) * (entry.1 - green) + (entry.2 - blue) * (
    entry.2 - blue) + (entry.3 - alpha) * (entry.3 - alpha)
}

/// The entry of a point with its place.
pub open spec fn entry_of(point: ([i64; 4], usize)) -> Entry {
    (point.0[0] as int, point.0[1] as int, point.0[2] as int, point.0[3] as int, point.1 as int)
}

/// The entries of a list of points.
pub open spec fn entries_of(points: Seq<([i64; 4], usize)>) -> Set<Entry> {
    Set::new(
        |entry: Entry| exists|i: int| 0 <= i < points.len() && entry_of(#[trigger] points[i]) == entry,
    )
}

/// Calls `kd_tree::KdTreeN::build`: a tree that holds the given points.
#[verifier::external_body]
fn build_tree(points: Vec<([i64; 4], usize)>) -> (tree: ColorTree)
    ensures
        tree_entries(tree) == entries_of(points@),
{
    ColorTree { tree: KdTreeN::build(points) }
}

/// Calls `kd_tree::KdTreeN::nearest`: the place of a color whose point is nearest to
/// the query, or `None` if the tree is empty. Which of several nearest points is found
/// is left to the tree. Coordinates are limited to bytes so that the squares of the
/// distances do not overflow.
#[verifier::external_body]
fn nearest_place(tree: &ColorTree, query: [i64; 4]) -> (r: Option<usize>)
    requires
        forall|k: int| 0 <= k < 4 ==> 0 <= #[trigger] query[k] <= 255,
        forall|entry: Entry|
            tree_entries(*tree).contains(entry) ==> 0 <= entry.0 <= 255 && 0 <= entry.1 <= 255 && 0
                <= entry.2 <= 255 && 0 <= entry.3 <= 255,
    ensures
        match r {
            Some(place) => {
                &&& nearest_entry(
                    *tree,
                    query[0] as int,
                    query[1] as int,
                    query[2] as int,
                    query[3] as int,
                ) == Some(place as int)
                &&& exists|found: Entry|
                    {
                        &&& #[trigger] tree_entries(*tree).contains(found)
                        &&& found.4 == place
                        &&& forall|other: Entry|
                            tree_entries(*tree).contains(other) ==> entry_distance(
                                found,
                                query[0] as int,
                                query[1] as int,
                                query[2] as int,
                                query[3] as int,
                            ) <= #[trigger] entry_distance(
                                other,
                                query[0] as int,
                                query[1] as int,
                                query[2] as int,
                                query[3] as int,
                            )
                    }
            },
            None => {
                &&& nearest_entry(
                    *tree,
                    query[0] as int,
                    query[1] as int,
                    query[2] as int,
                    query[3] as int,
                ) is None
                &&& forall|entry: Entry| !tree_entries(*tree).contains(entry)
            },
        },
{
    tree.tree.nearest(&query).map(|found| found.item.1)
}

/// Whether one of the entries has the place.
pub open spec fn has_place(entries: Set<Entry>, place: int) -> bool {
    exists|entry: Entry| #[trigger] entries.contains(entry) && entry.4 == place
}

/// The point of a raw color.
pub open spec fn point_of(color: RawColor) -> (int, int, int, int) {
    (color.red as int, color.green as int, color.blue as int, color.alpha as int)
}

/// A palette that maps each raw color to the color of the palette whose channels are
/// nearest to it in Euclidean distance.
pub struct EuclideanDistancePalette<C: Color> {
    tree: ColorTree,
    colors: Vec<C>,
}

impl<C: Color> EuclideanDistancePalette<C> {
    /// The colors of the palette.
    pub closed spec fn spec_colors(&self) -> Seq<C> {
        self.colors@
    }

    /// Whether the entry is that of the color at its place: where `into` follows its
    /// specification, its point is the point of the color's raw color.
    pub open spec fn entry_ok(colors: Seq<C>, entry: Entry) -> bool {
        &&& 0 <= entry.0 <= 255
        &&& 0 <= entry.1 <= 255
        &&& 0 <= entry.2 <= 255
        &&& 0 <= entry.3 <= 255
        &&& 0 <= entry.4 < colors.len()
        &&& C::obeys_into_spec() ==> (entry.0, entry.1, entry.2, entry.3) == point_of(
            raw_of(colors[entry.4]),
        )
    }

    #[verifier::type_invariant]
    closed spec fn inv(self) -> bool {
        &&& forall|entry: Entry| #[trigger]
            tree_entries(self.tree).contains(entry) ==> Self::entry_ok(self.colors@, entry)
        &&& forall|place: int|
            0 <= place < self.colors@.len() ==> #[trigger] has_place(tree_entries(self.tree), place)
    }

    /// The palette of the given colors.
    pub fn new(palette: &[C]) -> (r: Self)
        ensures
            r.spec_colors() == palette@,
    {
        let mut points: Vec<([i64; 4], usize)> = Vec::new();
        let mut colors: Vec<C> = Vec::new();
        let mut i: usize = 0;
        while i < palette.len()
            invariant
                i <= palette.len(),
                colors@ == palette@.take(i as int),
                points@.len() == i,
                forall|k: int|
                    0 <= k < i ==> Self::entry_ok(palette@, entry_of(#[trigger] points@[k]))
                        && entry_of(points@[k]).4 == k,
            decreases palette.len() - i,
        {
            let color = palette[i];
            let raw: RawColor = color.into();
            let point: [i64; 4] = [raw.red as i64, raw.green as i64, raw.blue as i64, raw.alpha as i64];
            points.push((point, i));
            colors.push(color);
            proof {
                assert(palette@.take(i + 1) =~= palette@.take(i as int).push(color));
            }
            i += 1;
        }
        proof {
            assert(palette@.take(i as int) =~= palette@);
        }
        let ghost listed = points@;
        let tree = build_tree(points);
        proof {
            assert forall|place: int| 0 <= place < colors@.len() implies #[trigger] has_place(
                tree_entries(tree),
                place,
            ) by {
                let entry = entry_of(listed[place]);
                assert(entries_of(listed).contains(entry));
            }
        }
        EuclideanDistancePalette { tree, colors }
    }

    /// The color at the place that was found in the tree, if one was found.
    pub fn color_at(&self, place: Option<usize>) -> (r: Option<C>)
        requires
            place matches Some(at) ==> at < self.spec_colors().len(),
        ensures
            r == (match place {
                Some(at) => Some(self.spec_colors()[at as int]),
                None => None,
            }),
    {
        match place {
            Some(at) => Some(self.colors[at]),
            None => None,
        }
    }

    /// The color of the palette that the tree finds for the raw color: `None` if the
    /// palette is empty; else a color of the palette and, where `into` follows its
    /// specification, one whose raw color is as near to the raw color as that of any
    /// color of the palette.
    pub fn nearest_color(&self, color: RawColor) -> (r: Option<C>)
        ensures
            r == self.spec_nearest(color),
            r is None <==> self.spec_colors().len() == 0,
            r matches Some(found) ==> exists|i: int|
                {
                    &&& 0 <= i < self.spec_colors().len()
                    &&& found == #[trigger] self.spec_colors()[i]
                    &&& C::obeys_into_spec() ==> forall|j: int|
                        0 <= j < self.spec_colors().len() ==> color_distance(
                            color,
                            raw_of(self.spec_colors()[i]),
                        ) <= color_distance(color, raw_of(#[trigger] self.spec_colors()[j]))
                },
    {
        proof {
            use_type_invariant(self);
        }
        let query: [i64; 4] = [
            color.red as i64,
            color.green as i64,
            color.blue as i64,
            color.alpha as i64,
        ];
        let place = nearest_place(&self.tree, query);
        proof {
            match place {
                Some(at) => {
                    let found = choose|found: Entry|
                        {
                            &&& #[trigger] tree_entries(self.tree).contains(found)
                            &&& found.4 == at
                            &&& forall|other: Entry|
                                tree_entries(self.tree).contains(other) ==> entry_distance(
                                    found,
                                    query[0] as int,
                                    query[1] as int,
                                    query[2] as int,
                                    query[3] as int,
                                ) <= #[trigger] entry_distance(
                                    other,
                                    query[0] as int,
                                    query[1] as int,
                                    query[2] as int,
                                    query[3] as int,
                                )
                        };
                    assert(Self::entry_ok(self.colors@, found));
                    if C::obeys_into_spec() {
                        assert forall|j: int| 0 <= j < self.colors@.len() implies color_distance(
                            color,
                            raw_of(self.colors@[at as int]),
                        ) <= color_distance(color, raw_of(#[trigger] self.colors@[j])) by {
                            assert(has_place(tree_entries(self.tree), j));
                            let other = choose|other: Entry| #[trigger]
                                tree_entries(self.tree).contains(other) && other.4 == j;
                            assert(Self::entry_ok(self.colors@, other));
                            lemma_distances(found, color, raw_of(self.colors@[at as int]));
                            lemma_distances(other, color, raw_of(self.colors@[j]));
                            assert(entry_distance(
                                found,
                                query[0] as int,
                                query[1] as int,
                                query[2] as int,
                                query[3] as int,
                            ) <= entry_distance(
                                other,
                                query[0] as int,
                                query[1] as int,
                                query[2] as int,
                                query[3] as int,
                            ));
                        }
                    }
                },
                None => {
                    if self.colors@.len() > 0 {
                        assert(has_place(tree_entries(self.tree), 0));
                        let entry = choose|entry: Entry| #[trigger]
                            tree_entries(self.tree).contains(entry) && entry.4 == 0;
                        assert(tree_entries(self.tree).contains(entry));
                    }
                },
            }
        }
        self.color_at(place)
    }
}

/// The distance between an entry and a raw color is the distance between the raw color
/// and the color whose point the entry has.
pub proof fn lemma_distances(entry: Entry, color: RawColor, other: RawColor)
    requires
        (entry.0, entry.1, entry.2, entry.3) == point_of(other),
    ensures
        entry_distance(
            entry,
            color.red as int,
            color.green as int,
            color.blue as int,
            color.alpha as int,
        ) == color_distance(color, other),
{
    assert((entry.0 - color.red) * (entry.0 - color.red) == (color.red - other.red) * (color.red
        - other.red)) by (nonlinear_arith)
        requires
            entry.0 == other.red,
    ;
    assert((entry.1 - color.green) * (entry.1 - color.green) == (color.green - other.green) * (
    color.green - other.green)) by (nonlinear_arith)
        requires
            entry.1 == other.green,
    ;
    assert((entry.2 - color.blue) * (entry.2 - color.blue) == (color.blue - other.blue) * (
    color.blue - other.blue)) by (nonlinear_arith)
        requires
            entry.2 == other.blue,
    ;
    assert((entry.3 - color.alpha) * (entry.3 - color.alpha) == (color.alpha - other.alpha) * (
    color.alpha - other.alpha)) by (nonlinear_arith)
        requires
            entry.3 == other.alpha,
    ;
}

impl<C: Color> Palette<C> for EuclideanDistancePalette<C> {
    /// The color at the place that the tree finds for the point of the raw color.
    closed spec fn spec_nearest(&self, color: RawColor) -> Option<C> {
        match nearest_entry(
            self.tree,
            color.red as int,
            color.green as int,
            color.blue as int,
            color.alpha as int,
        ) {
            Some(place) => Some(self.colors@[place]),
            None => None,
        }
    }

    fn nearest(&self, color: RawColor) -> (r: Option<C>) {
        self.nearest_color(color)
    }
}

/// The raw color of a color.
pub open spec fn raw_of<C: Color>(color: C) -> RawColor {
    color.into_spec()
}

/// The square of the difference of two channels.
pub open spec fn channel_distance(component1: u8, component2: u8) -> int {
    (component1 - component2) * (component1 - component2)
}

/// The square of the Euclidean distance between two raw colors.
pub open spec fn color_distance(color1: RawColor, color2: RawColor) -> int {
    channel_distance(color1.red, color2.red) + channel_distance(color1.green, color2.green)
        + channel_distance(color1.blue, color2.blue) + channel_distance(color1.alpha, color2.alpha)
}

/// The square of the difference of two channels.
pub fn component_distance_squared(component1: u8, component2: u8) -> (r: u32)
    ensures
        r == channel_distance(component1, component2),
        r <= 255 * 255,
{
    let distance: u32 = if component1 > component2 {
        (component1 - component2) as u32
    } else {
        (component2 - component1) as u32
    };
    assert(distance * distance <= 255 * 255) by (nonlinear_arith)
        requires
            distance <= 255,
    ;
    assert(distance * distance == (component1 - component2) * (component1 - component2))
        by (nonlinear_arith)
        requires
            distance == component1 - component2 || distance == component2 - component1,
    ;
    distance * distance
}

/// The square of the Euclidean distance between two raw colors.
pub fn distance_squared(color1: RawColor, color2: RawColor) -> (r: u32)
    ensures
        r == color_distance(color1, color2),
        r <= 4 * 255 * 255,
{
    component_distance_squared(color1.red, color2.red) + component_distance_squared(
        color1.green,
        color2.green,
    ) + component_distance_squared(color1.blue, color2.blue) + component_distance_squared(
        color1.alpha,
        color2.alpha,
    )
}

/// The color of the list that is nearest to the raw color, the first of them if several
/// are as near; a default color if the list is empty.
pub fn find_similar_color<C: Color>(color: RawColor, palette: &[C]) -> (r: C)
    ensures
        palette@.len() == 0 ==> call_ensures(C::default, (), r),
        palette@.len() > 0 ==> exists|i: int|
            {
                &&& 0 <= i < palette@.len()
                &&& r == #[trigger] palette@[i]
                &&& C::obeys_into_spec() ==> {
                    &&& forall|j: int|
                        0 <= j < palette@.len() ==> color_distance(color, raw_of(palette@[i]))
                            <= color_distance(color, raw_of(#[trigger] palette@[j]))
                    &&& forall|j: int|
                        0 <= j < i ==> color_distance(color, raw_of(palette@[i])) < color_distance(
                            color,
                            raw_of(#[trigger] palette@[j]),
                        )
                }
            },
{
    let mut best_distance: u32 = u32::MAX;
    let mut best_color: C = C::default();
    let ghost mut best: int = -1;
    let mut n: usize = 0;
    while n < palette.len()
        invariant
            n <= palette.len(),
            -1 <= best < n,
            n == 0 ==> best == -1 && best_distance == u32::MAX && call_ensures(
                C::default,
                (),
                best_color,
            ),
            n > 0 ==> 0 <= best && best_color == palette@[best] && best_distance <= 4 * 255 * 255,
            n > 0 && C::obeys_into_spec() ==> {
                &&& best_distance == color_distance(color, raw_of(palette@[best]))
                &&& forall|j: int|
                    0 <= j < n ==> best_distance <= color_distance(
                        color,
                        raw_of(#[trigger] palette@[j]),
                    )
                &&& forall|j: int|
                    0 <= j < best ==> best_distance < color_distance(
                        color,
                        raw_of(#[trigger] palette@[j]),
                    )
            },
        decreases palette.len() - n,
    {
        let palette_color = palette[n];
        let raw: RawColor = palette_color.into();
        let distance = distance_squared(color, raw);
        if distance < best_distance {
            best_distance = distance;
            best_color = palette_color;
            proof {
                best = n as int;
            }
        }
        n += 1;
    }
    proof {
        if palette@.len() > 0 {
            assert(best_color == palette@[best]);
        }
    }
    best_color
}

} // verus!
