use std::collections::BTreeSet;
use brick_mosaic::base::{fill, is_even, make_even, sort_by_area, sub_at_most, Base, BaseError, FilledArea};
use brick_mosaic::brick::{Brick, NonUnitBrick, PlacedBrick};
use brick_mosaic::chunk::{any_of_height, layer_heights, VolumeSortedBrick};
use brick_mosaic::color::{RawColor, Srgba};
use brick_mosaic::error::MosaicError;
use brick_mosaic::ldraw::{place_sub_part, moved_by, LdrawBrick, LdrawColor, SubPartPlace};
use brick_mosaic::mosaic::{make_sections, Mosaic};
use brick_mosaic::palette::{component_distance_squared, distance_squared, find_similar_color, EuclideanDistancePalette};
use brick_mosaic::pixels::{Image, Palette, PixelImage, Pixels};
use brick_mosaic::sorting::sort_desc;

#[derive(Clone, Copy, Debug, Eq, PartialEq)]
struct TestBrick {
    id: &'static str,
    length: u8,
    width: u8,
    height: u8,
    unit_brick: u8,
    rotated: bool,
}

impl NonUnitBrick<u8> for TestBrick {
    fn spec_length(&self) -> u8 {
        self.length
    }

    fn spec_width(&self) -> u8 {
        self.width
    }

    fn spec_height(&self) -> u8 {
        self.height
    }

    fn spec_unit_brick(&self) -> u8 {
        self.unit_brick
    }

    fn spec_rotate_90(&self) -> Self {
        self.rotate_90()
    }

    fn spec_is_rotation_of(&self, other: &Self) -> bool {
        self.is_rotation_of(other)
    }

    fn obeys_rotation_spec() -> bool {
        true
    }

    fn length(&self) -> u8 {
        self.length
    }

    fn width(&self) -> u8 {
        self.width
    }

    fn height(&self) -> u8 {
        self.height
    }

    fn unit_brick(&self) -> u8 {
        self.unit_brick
    }

    fn rotate_90(&self) -> Self {
        TestBrick { length: self.width, width: self.length, rotated: !self.rotated, ..*self }
    }

    fn is_rotation_of(&self, other: &Self) -> bool {
        self.id == other.id && self.unit_brick == other.unit_brick
    }
}

const fn shape(id: &'static str, length: u8, width: u8, height: u8) -> TestBrick {
    TestBrick { id, length, width, height, unit_brick: 0, rotated: false }
}

const ONE_BY_ONE: TestBrick = shape("1x1x1", 1, 1, 1);
const TWO_BY_ONE: TestBrick = shape("2x1x1", 2, 1, 1);
const TWO_BY_TWO: TestBrick = shape("2x2x1", 2, 2, 1);
const THREE_BY_ONE: TestBrick = shape("3x1x1", 3, 1, 1);
const TWO_BY_ONE_BY_TWO: TestBrick = shape("2x1x2", 2, 1, 2);
const ONE_BY_ONE_BY_TWO: TestBrick = shape("1x1x2", 1, 1, 2);
const ONE_BY_ONE_BY_THREE: TestBrick = shape("1x1x3", 1, 1, 3);

#[derive(Copy, Clone, Debug, Eq, PartialEq)]
struct TestColor {
    value: Srgba<u8>,
}

impl TestColor {
    const fn new(red: u8, green: u8, blue: u8, alpha: u8) -> Self {
        TestColor { value: Srgba { red, green, blue, alpha } }
    }
}

impl Default for TestColor {
    fn default() -> Self {
        TestColor::new(0, 0, 0, 0)
    }
}

impl From<TestColor> for Srgba<u8> {
    fn from(color: TestColor) -> Self {
        color.value
    }
}

const RED: TestColor = TestColor::new(255, 0, 0, 255);
const BLUE: TestColor = TestColor::new(0, 0, 255, 255);

struct TestImage {
    colors: Vec<RawColor>,
    length: u32,
    width: u32,
}

impl TestImage {
    fn filled(length: u32, width: u32, color: TestColor) -> Self {
        TestImage { colors: vec![color.value; length as usize * width as usize], length, width }
    }

    fn put_pixel(&mut self, l: u32, w: u32, color: TestColor) {
        self.colors[w as usize * self.length as usize + l as usize] = color.value
    }
}

impl Image for TestImage {
    fn spec_pixel(&self, l: u32, w: u32) -> RawColor {
        self.pixel(l, w)
    }

    fn spec_length(&self) -> u32 {
        self.length
    }

    fn spec_width(&self) -> u32 {
        self.width
    }

    fn pixel(&self, l: u32, w: u32) -> RawColor {
        self.colors[w as usize * self.length as usize + l as usize]
    }

    fn length(&self) -> u32 {
        self.length
    }

    fn width(&self) -> u32 {
        self.width
    }
}

type TestMosaic = Mosaic<u8, TestBrick, TestColor>;

fn palette() -> EuclideanDistancePalette<TestColor> {
    EuclideanDistancePalette::new(&[RED, BLUE])
}

fn build(img: &TestImage, heights: &[&[u32]]) -> TestMosaic {
    match Mosaic::from_image(img, &palette(), |l, w, _| heights[w as usize][l as usize], |_, _, _, _| Brick::Unit(0u8)) {
        Ok(mosaic) => mosaic,
        Err(_) => panic!("the mosaic should have been built"),
    }
}

fn reduce(mosaic: TestMosaic, bricks: &[TestBrick], exclusions: &[(TestBrick, TestColor)]) -> TestMosaic {
    match mosaic.reduce_bricks(bricks, exclusions) {
        Ok(mosaic) => mosaic,
        Err(_) => panic!("the mosaic should have been reduced"),
    }
}

fn voxels(placed: &[PlacedBrick<u8, TestBrick, TestColor>]) -> Vec<(u32, u32, u32, TestColor)> {
    let mut filled = Vec::new();
    for brick in placed {
        for l in brick.l..brick.l + brick.brick.length() as u32 {
            for w in brick.w..brick.w + brick.brick.width() as u32 {
                for h in brick.h..brick.h + brick.brick.height() as u32 {
                    filled.push((l, w, h, brick.color));
                }
            }
        }
    }
    filled
}

fn placements(mosaic: &TestMosaic) -> Vec<(u32, u32, u32, u8, u8, u8)> {
    mosaic.iter().iter()
        .map(|brick| (brick.l, brick.w, brick.h, brick.brick.length(), brick.brick.width(), brick.brick.height()))
        .collect()
}

#[test]
fn test_every_voxel_is_filled_exactly_once() {
    let mut img = TestImage::filled(3, 2, RED);
    img.put_pixel(1, 0, BLUE);
    img.put_pixel(2, 1, BLUE);
    let heights: [&[u32]; 2] = [&[1, 2, 0], &[3, 0, 2]];
    let mosaic = build(&img, &heights);

    let mut expected = BTreeSet::new();
    for w in 0..2u32 {
        for l in 0..3u32 {
            for h in 0..heights[w as usize][l as usize] {
                expected.insert((l, w, h));
            }
        }
    }

    let filled = voxels(&mosaic.iter());
    assert_eq!(expected.len(), filled.len());
    let distinct: BTreeSet<(u32, u32, u32)> = filled.iter().map(|&(l, w, h, _)| (l, w, h)).collect();
    assert_eq!(expected, distinct);

    let reduced = reduce(mosaic, &[TWO_BY_ONE, TWO_BY_ONE_BY_TWO], &[]);
    let filled = voxels(&reduced.iter());
    assert_eq!(expected.len(), filled.len());
    let distinct: BTreeSet<(u32, u32, u32)> = filled.iter().map(|&(l, w, h, _)| (l, w, h)).collect();
    assert_eq!(expected, distinct);
}

#[test]
fn test_every_voxel_has_the_color_of_its_pixel() {
    let mut img = TestImage::filled(3, 2, TestColor::new(250, 10, 10, 255));
    img.put_pixel(1, 0, TestColor::new(10, 20, 240, 255));
    img.put_pixel(2, 1, TestColor::new(0, 0, 200, 250));
    let heights: [&[u32]; 2] = [&[2, 2, 2], &[2, 2, 2]];
    let mosaic = reduce(build(&img, &heights), &[TWO_BY_ONE, TWO_BY_TWO], &[]);

    let palette = palette();
    let filled = voxels(&mosaic.iter());
    assert_eq!(12, filled.len());
    for (l, w, _, color) in filled {
        assert_eq!(palette.nearest(img.pixel(l, w)), Some(color));
    }
}

#[test]
fn test_voxels_without_a_palette_color_have_the_default_color() {
    let img = TestImage::filled(2, 1, RED);
    let empty: EuclideanDistancePalette<TestColor> = EuclideanDistancePalette::new(&[]);
    let mosaic: TestMosaic = match Mosaic::from_image(&img, &empty, |_, _, _| 1, |_, _, _, _| Brick::Unit(0u8)) {
        Ok(mosaic) => mosaic,
        Err(_) => panic!("the mosaic should have been built"),
    };
    assert!(mosaic.iter().iter().all(|brick| brick.color == TestColor::default()));
}

#[test]
fn test_functions_are_asked_once_for_each_column_and_voxel() {
    let img = TestImage::filled(3, 2, RED);
    let mut height_calls = Vec::new();
    let mut brick_calls = Vec::new();
    let built: Result<TestMosaic, _> = Mosaic::from_image(
        &img,
        &palette(),
        |l, w, color| {
            height_calls.push((l, w, color));
            l + w
        },
        |l, w, h, color| {
            brick_calls.push((l, w, h, color));
            Brick::Unit(0u8)
        },
    );
    assert!(built.is_ok());

    let mut expected_heights = Vec::new();
    let mut expected_bricks = Vec::new();
    for w in 0..2u32 {
        for l in 0..3u32 {
            expected_heights.push((l, w, RED));
            for h in 0..l + w {
                expected_bricks.push((l, w, h, RED));
            }
        }
    }
    height_calls.sort_by_key(|&(l, w, _)| (w, l));
    brick_calls.sort_by_key(|&(l, w, h, _)| (w, l, h));
    assert_eq!(expected_heights, height_calls);
    assert_eq!(expected_bricks, brick_calls);
}

#[test]
fn test_brick_that_is_not_unit_fails() {
    let img = TestImage::filled(4, 5, RED);
    let built: Result<TestMosaic, _> = Mosaic::from_image(
        &img,
        &palette(),
        |_, _, _| 2,
        |l, w, h, _| match (l, w, h) {
            (3, 4, 1) => Brick::NonUnit(TWO_BY_ONE),
            _ => Brick::Unit(0u8),
        },
    );
    match built {
        Err(MosaicError::NotUnitBrick(brick)) => assert_eq!(Brick::NonUnit(TWO_BY_ONE), brick),
        _ => panic!("a brick of two by one should have ended the construction"),
    }
}

#[test]
fn test_shape_of_one_voxel_is_a_unit_brick() {
    let img = TestImage::filled(2, 1, RED);
    let built: Result<TestMosaic, _> = Mosaic::from_image(
        &img,
        &palette(),
        |_, _, _| 1,
        |_, _, _, _| Brick::NonUnit(ONE_BY_ONE),
    );
    match built {
        Ok(mosaic) => assert!(mosaic.iter().iter().all(|brick| brick.brick == Brick::Unit(0u8))),
        Err(_) => panic!("a shape of one voxel should have been taken for its unit brick"),
    }
}

#[test]
fn test_brick_above_the_height_is_not_asked_for() {
    let img = TestImage::filled(2, 2, RED);
    let built: Result<TestMosaic, _> = Mosaic::from_image(
        &img,
        &palette(),
        |_, _, _| 1,
        |_, _, h, _| if h == 0 { Brick::Unit(0u8) } else { Brick::NonUnit(TWO_BY_ONE) },
    );
    assert!(built.is_ok());
}

#[test]
fn test_one_chunk_for_each_region() {
    let mut img = TestImage::filled(4, 1, RED);
    img.put_pixel(2, 0, BLUE);
    let heights: [&[u32]; 1] = [&[1, 1, 1, 1]];
    let mosaic = build(&img, &heights);
    assert_eq!(1, mosaic.sections().len());
    let chunks = mosaic.sections()[0].chunks();
    assert_eq!(3, chunks.len());
    assert_eq!((0, 2, RED), (chunks[0].l(), chunks[0].length(), chunks[0].color()));
    assert_eq!((2, 1, BLUE), (chunks[1].l(), chunks[1].length(), chunks[1].color()));
    assert_eq!((3, 1, RED), (chunks[2].l(), chunks[2].length(), chunks[2].color()));
}

#[test]
fn test_region_is_cut_where_its_columns_change() {
    let img = TestImage::filled(2, 1, RED);
    let heights: [&[u32]; 1] = [&[3, 1]];
    let mosaic = build(&img, &heights);
    let chunks = mosaic.sections()[0].chunks();
    assert_eq!(2, chunks.len());
    assert_eq!((0, 0, 0, 2, 1, 1), (chunks[0].l(), chunks[0].w(), chunks[0].h(), chunks[0].length(), chunks[0].width(), chunks[0].height()));
    assert_eq!((0, 0, 1, 1, 1, 2), (chunks[1].l(), chunks[1].w(), chunks[1].h(), chunks[1].length(), chunks[1].width(), chunks[1].height()));
    assert!(chunks[0].includes(0, 0) && chunks[0].includes(1, 0));
    assert!(chunks[1].includes(0, 0) && !chunks[1].includes(1, 0));
}

#[test]
fn test_slice_has_its_own_bounding_box() {
    let img = TestImage::filled(3, 1, RED);
    let heights: [&[u32]; 1] = [&[1, 1, 2]];
    let mosaic = build(&img, &heights);
    let chunks = mosaic.sections()[0].chunks();
    assert_eq!(2, chunks.len());
    assert_eq!((0, 3, 0, 1), (chunks[0].l(), chunks[0].length(), chunks[0].h(), chunks[0].height()));
    assert_eq!((2, 1, 1, 1), (chunks[1].l(), chunks[1].length(), chunks[1].h(), chunks[1].height()));
    assert_eq!(vec![(2, 0, 1, 1, 1, 1)], placements(&mosaic).into_iter().filter(|brick| brick.2 == 1).collect::<Vec<_>>());
}

#[test]
fn test_greedy_rule_places_first_brick_that_fits() {
    let img = TestImage::filled(3, 2, RED);
    let heights: [&[u32]; 2] = [&[1, 1, 1], &[1, 1, 1]];
    let mosaic = reduce(build(&img, &heights), &[TWO_BY_ONE], &[]);
    assert_eq!(
        vec![(0, 0, 0, 2, 1, 1), (0, 1, 0, 2, 1, 1), (2, 0, 0, 1, 2, 1)],
        placements(&mosaic)
    );
}

#[test]
fn test_larger_volume_is_tried_first() {
    let img = TestImage::filled(3, 2, RED);
    let heights: [&[u32]; 2] = [&[1, 1, 1], &[1, 1, 1]];
    let mosaic = reduce(build(&img, &heights), &[TWO_BY_ONE, TWO_BY_TWO], &[]);
    assert_eq!(
        vec![(0, 0, 0, 2, 2, 1), (2, 0, 0, 1, 2, 1)],
        placements(&mosaic)
    );
}

#[test]
fn test_tallest_bricks_make_the_first_layer() {
    let img = TestImage::filled(3, 2, RED);
    let heights: [&[u32]; 2] = [&[2, 2, 2], &[2, 2, 2]];
    let mosaic = reduce(build(&img, &heights), &[TWO_BY_ONE, TWO_BY_TWO, TWO_BY_ONE_BY_TWO], &[]);
    assert_eq!(
        vec![(0, 0, 0, 2, 1, 2), (0, 1, 0, 2, 1, 2), (2, 0, 0, 1, 2, 2)],
        placements(&mosaic)
    );
}

#[test]
fn test_height_is_cut_into_layers() {
    let img = TestImage::filled(1, 1, RED);
    let heights: [&[u32]; 1] = [&[5]];
    let mosaic = reduce(build(&img, &heights), &[ONE_BY_ONE_BY_TWO], &[]);
    assert_eq!(
        vec![(0, 0, 0, 1, 1, 2), (0, 0, 2, 1, 1, 2), (0, 0, 4, 1, 1, 1)],
        placements(&mosaic)
    );
}

#[test]
fn test_shorter_bricks_take_what_the_taller_leave() {
    let img = TestImage::filled(1, 1, RED);

    let heights: [&[u32]; 1] = [&[5]];
    let mosaic = reduce(build(&img, &heights), &[ONE_BY_ONE_BY_TWO, ONE_BY_ONE_BY_THREE], &[]);
    assert_eq!(vec![(0, 0, 0, 1, 1, 3), (0, 0, 3, 1, 1, 2)], placements(&mosaic));

    let heights: [&[u32]; 1] = [&[7]];
    let mosaic = reduce(build(&img, &heights), &[ONE_BY_ONE_BY_TWO, ONE_BY_ONE_BY_THREE], &[]);
    assert_eq!(
        vec![(0, 0, 0, 1, 1, 3), (0, 0, 3, 1, 1, 3), (0, 0, 6, 1, 1, 1)],
        placements(&mosaic)
    );
}

#[test]
fn test_plate_is_not_tried_in_a_taller_layer() {
    let img = TestImage::filled(2, 1, RED);
    let heights: [&[u32]; 1] = [&[2, 2]];
    let mosaic = reduce(build(&img, &heights), &[TWO_BY_ONE, ONE_BY_ONE_BY_TWO], &[]);
    assert_eq!(vec![(0, 0, 0, 1, 1, 2), (1, 0, 0, 1, 1, 2)], placements(&mosaic));
}

#[test]
fn test_unit_brick_fills_what_no_tall_brick_fits() {
    let img = TestImage::filled(3, 1, RED);
    let heights: [&[u32]; 1] = [&[2, 2, 2]];
    let mosaic = reduce(build(&img, &heights), &[TWO_BY_ONE_BY_TWO], &[]);
    let placed = mosaic.iter();
    assert_eq!(
        vec![(0, 0, 0, 2, 1, 2), (2, 0, 0, 1, 1, 1), (2, 0, 1, 1, 1, 1)],
        placements(&mosaic)
    );
    assert_eq!(Brick::Unit(0u8), placed[1].brick);
    assert_eq!(Brick::Unit(0u8), placed[2].brick);
}

#[test]
fn test_layers_say_where_each_begins() {
    let sizes: Vec<VolumeSortedBrick<u8, TestBrick>> = vec![
        VolumeSortedBrick { brick: Brick::NonUnit(ONE_BY_ONE_BY_THREE) },
        VolumeSortedBrick { brick: Brick::NonUnit(ONE_BY_ONE_BY_TWO) },
        VolumeSortedBrick { brick: Brick::Unit(0u8) },
    ];
    assert!(any_of_height(&sizes, 3));
    assert!(!any_of_height(&sizes, 4));
    assert_eq!(vec![3, 0, 0, 3, 0, 0, 2, 0], layer_heights(&sizes, 8));
    assert_eq!(vec![3, 0, 0, 1], layer_heights(&sizes, 4));
    assert_eq!(vec![1], layer_heights(&sizes, 1));
    assert_eq!(Vec::<u8>::new(), layer_heights(&sizes, 0));
}

#[test]
fn test_square_shape_is_tried_in_one_orientation() {
    let img = TestImage::filled(2, 2, RED);
    let heights: [&[u32]; 2] = [&[1, 1], &[1, 1]];
    let mosaic = reduce(build(&img, &heights), &[TWO_BY_TWO], &[]);
    let placed = mosaic.iter();
    assert_eq!(1, placed.len());
    assert_eq!(Brick::NonUnit(TWO_BY_TWO), placed[0].brick);
}

#[test]
fn test_rectangular_shape_is_tried_in_both_orientations() {
    let img = TestImage::filled(1, 3, RED);
    let heights: [&[u32]; 3] = [&[1], &[1], &[1]];
    let mosaic = reduce(build(&img, &heights), &[THREE_BY_ONE], &[]);
    let placed = mosaic.iter();
    assert_eq!(1, placed.len());
    assert_eq!(Brick::NonUnit(THREE_BY_ONE.rotate_90()), placed[0].brick);
    assert_eq!((1, 3), (placed[0].brick.length(), placed[0].brick.width()));
}

#[test]
fn test_excluded_shape_is_not_placed_in_either_orientation() {
    let img = TestImage::filled(1, 3, RED);
    let heights: [&[u32]; 3] = [&[1], &[1], &[1]];
    let mosaic = reduce(build(&img, &heights), &[THREE_BY_ONE], &[(THREE_BY_ONE, RED)]);
    assert_eq!(vec![(0, 0, 0, 1, 1, 1), (0, 1, 0, 1, 1, 1), (0, 2, 0, 1, 1, 1)], placements(&mosaic));
}

#[test]
fn test_reduction_keeps_the_volume_of_each_chunk() {
    let mut img = TestImage::filled(4, 3, RED);
    img.put_pixel(1, 1, BLUE);
    img.put_pixel(2, 1, BLUE);
    let heights: [&[u32]; 3] = [&[2, 2, 1, 1], &[2, 3, 3, 1], &[1, 1, 1, 1]];
    let mosaic = build(&img, &heights);
    let before: Vec<u32> = mosaic.sections()[0].chunks().iter()
        .map(|chunk| chunk.bricks().len() as u32)
        .collect();
    let reduced = reduce(mosaic, &[TWO_BY_ONE, TWO_BY_TWO, THREE_BY_ONE, TWO_BY_ONE_BY_TWO], &[]);
    let after: Vec<u32> = reduced.sections()[0].chunks().iter()
        .map(|chunk| chunk.bricks().iter()
            .map(|brick| brick.brick.length() as u32 * brick.brick.width() as u32 * brick.brick.height() as u32)
            .sum())
        .collect();
    assert_eq!(before, after);
    assert_eq!(19u32, after.iter().sum());
    assert!(reduced.iter().len() < 19);
}

#[test]
fn test_reduction_with_unit_shapes_keeps_every_voxel() {
    let mut img = TestImage::filled(3, 2, RED);
    img.put_pixel(1, 1, BLUE);
    let heights: [&[u32]; 2] = [&[1, 2, 1], &[1, 2, 1]];
    let mosaic = build(&img, &heights);
    let mut before = voxels(&mosaic.iter());
    before.sort_by_key(|&(l, w, h, _)| (l, w, h));

    let unchanged = reduce(mosaic, &[], &[]);
    assert!(unchanged.iter().iter().all(|brick| brick.brick == Brick::Unit(0u8)));

    let reduced = reduce(unchanged, &[ONE_BY_ONE], &[]);
    let placed = reduced.iter();
    assert_eq!(8, placed.len());
    assert!(placed.iter().all(|brick| brick.brick == Brick::NonUnit(ONE_BY_ONE)));
    let mut after = voxels(&placed);
    after.sort_by_key(|&(l, w, h, _)| (l, w, h));
    assert_eq!(before, after);
}

#[test]
fn test_mosaic_can_be_reduced_again() {
    let img = TestImage::filled(4, 1, RED);
    let heights: [&[u32]; 1] = [&[1, 1, 1, 1]];
    let once = reduce(build(&img, &heights), &[TWO_BY_ONE], &[]);
    assert_eq!(vec![(0, 0, 0, 2, 1, 1), (2, 0, 0, 2, 1, 1)], placements(&once));
    let twice = reduce(once, &[THREE_BY_ONE], &[]);
    assert_eq!(vec![(0, 0, 0, 3, 1, 1), (3, 0, 0, 1, 1, 1)], placements(&twice));
    assert_eq!((4, 1), (twice.length(), twice.width()));
}

#[test]
fn test_make_sections_cuts_tiles_of_at_most_the_section_size() {
    assert_eq!(Vec::<(u32, u32, u8, u8)>::new(), make_sections(0, 0, 255));
    assert_eq!(Vec::<(u32, u32, u8, u8)>::new(), make_sections(3, 0, 255));
    assert_eq!(vec![(0, 0, 4, 5)], make_sections(4, 5, 255));
    assert_eq!(vec![(0, 0, 255, 255)], make_sections(255, 255, 255));
    assert_eq!(
        vec![(0, 0, 255, 255), (0, 255, 255, 45), (255, 0, 45, 255), (255, 255, 45, 45)],
        make_sections(300, 300, 255)
    );
    assert_eq!(
        vec![(0, 0, 2, 2), (0, 2, 2, 1), (2, 0, 2, 2), (2, 2, 2, 1), (4, 0, 1, 2), (4, 2, 1, 1)],
        make_sections(5, 3, 2)
    );
}

#[test]
fn test_pixels_hold_one_value_for_each_pixel() {
    let pixels = Pixels::from_fn(|l, w| (10 * w + l) as u32, 3, 2);
    assert_eq!(3, pixels.length());
    assert_eq!(0, pixels.value(0, 0));
    assert_eq!(2, pixels.value(2, 0));
    assert_eq!(11, pixels.value(1, 1));
    assert_eq!(Some(12), pixels.max());
    assert_eq!(None, Pixels::from_fn(|_, _| 1u32, 0, 0).max());

    let rows = Pixels::from_rows(vec![5u32, 9, 7, 1], 2, 2);
    assert_eq!(7, rows.value(0, 1));
    assert_eq!(Some(9), rows.max());

    let raw = Pixels::from_fn(|l, _| if l == 0 { RED.value } else { BLUE.value }, 2, 1);
    let colors = raw.with_palette(&palette());
    assert_eq!(RED, colors.value(0, 0));
    assert_eq!(BLUE, colors.value(1, 0));
}

#[test]
fn test_sort_is_stable_and_descending() {
    let items = vec!['a', 'b', 'c', 'd', 'e'];
    let keys = vec![1u32, 3, 3, 2, 3];
    assert_eq!(vec!['b', 'c', 'e', 'd', 'a'], sort_desc(&items, &keys));
    assert_eq!(Vec::<char>::new(), sort_desc(&Vec::<char>::new(), &Vec::new()));

    let sorted = sort_by_area::<u8, TestBrick>(&vec![TWO_BY_ONE, TWO_BY_TWO, THREE_BY_ONE, ONE_BY_ONE]);
    assert_eq!(vec![TWO_BY_TWO, THREE_BY_ONE, TWO_BY_ONE, ONE_BY_ONE], sorted);
}

#[test]
fn test_brick_has_the_extents_of_its_shape() {
    let unit: Brick<u8, TestBrick> = Brick::Unit(7);
    assert_eq!((1, 1, 1, 7), (unit.length(), unit.width(), unit.height(), unit.unit_brick()));
    assert_eq!(unit, unit.rotate_90());

    let brick: Brick<u8, TestBrick> = Brick::NonUnit(TWO_BY_ONE_BY_TWO);
    assert_eq!((2, 1, 2, 0), (brick.length(), brick.width(), brick.height(), brick.unit_brick()));
    let rotated = brick.rotate_90();
    assert_eq!((1, 2, 2, 0), (rotated.length(), rotated.width(), rotated.height(), rotated.unit_brick()));

    let size = VolumeSortedBrick { brick };
    assert_eq!((2, 1, 2, 4), (size.length(), size.width(), size.height(), size.volume()));
    let largest: VolumeSortedBrick<u8, TestBrick> = VolumeSortedBrick { brick: Brick::NonUnit(shape("cube", 255, 255, 255)) };
    assert_eq!(16_581_375, largest.volume());
}

#[test]
fn test_ldraw_brick_and_color() {
    let brick = LdrawBrick { id: "3020.dat", length: 4, width: 2, height: 1, unit_brick: 3u8, rotated: false };
    assert_eq!((4, 2, 1, 3), (brick.length(), brick.width(), brick.height(), brick.unit_brick()));
    let rotated = brick.rotate_90();
    assert_eq!((2, 4, 1, 3, true), (rotated.length(), rotated.width(), rotated.height(), rotated.unit_brick(), rotated.rotated));
    assert!(rotated.is_rotation_of(&brick));
    assert!(rotated != brick);
    assert!(rotated.rotate_90() == brick);
    let other = LdrawBrick { id: "3021.dat", ..brick };
    assert!(!other.is_rotation_of(&brick));

    let color = LdrawColor::new(4, 180, 0, 0, 255);
    assert_eq!(4, color.id);
    assert_eq!(Srgba { red: 180, green: 0, blue: 0, alpha: 255 }, color.value);
    assert!(color == LdrawColor::new(4, 1, 2, 3, 4));
    assert!(color != LdrawColor::new(5, 180, 0, 0, 255));
    assert_eq!(0, LdrawColor::default().id);
    assert_eq!(Srgba { red: 27, green: 42, blue: 52, alpha: 255 }, LdrawColor::default().value);
    let raw: RawColor = color.into();
    assert_eq!(Srgba { red: 180, green: 0, blue: 0, alpha: 255 }, raw);
}

#[test]
fn test_small_arithmetic() {
    assert!(is_even(0) && is_even(2) && !is_even(1) && !is_even(u32::MAX));
    assert_eq!((0, 0, 2, 2, u32::MAX - 1), (make_even(0), make_even(1), make_even(2), make_even(3), make_even(u32::MAX)));
    assert_eq!((3, 0, 0), (sub_at_most(5, 2), sub_at_most(2, 2), sub_at_most(1, 2)));
}

fn areas(filled: &[FilledArea<TestBrick>]) -> Vec<(&'static str, bool, u32, u32, u32, u32)> {
    filled.iter()
        .map(|area| (area.brick.id, area.brick.rotated, area.l, area.w, area.length, area.width))
        .collect()
}

#[test]
fn test_fill_takes_whole_copies_of_the_first_brick_that_fits() {
    let bricks = vec![shape("4x4x1", 4, 4, 1), TWO_BY_TWO];
    assert_eq!(
        vec![("4x4x1", false, 0, 0, 8, 4), ("2x2x1", false, 0, 4, 8, 2), ("2x2x1", false, 8, 0, 2, 6)],
        areas(&fill::<u8, TestBrick>(0, 0, 10, 6, 0, &bricks))
    );
    assert_eq!(
        vec![("2x2x1", false, 3, 5, 10, 6)],
        areas(&fill::<u8, TestBrick>(3, 5, 10, 6, 1, &bricks))
    );
    assert_eq!(
        Vec::<(&'static str, bool, u32, u32, u32, u32)>::new(),
        areas(&fill::<u8, TestBrick>(0, 0, 1, 6, 0, &bricks))
    );
    assert_eq!(
        Vec::<(&'static str, bool, u32, u32, u32, u32)>::new(),
        areas(&fill::<u8, TestBrick>(0, 0, 10, 6, 0, &vec![shape("0x2x1", 0, 2, 1)]))
    );
}

fn base(one_by_one: TestBrick, two_by_one: TestBrick, two_by_two: TestBrick, others: &[TestBrick]) -> Result<Base<u8, TestBrick, TestColor>, BaseError<TestBrick>> {
    Base::new(4, 4, RED, one_by_one, two_by_one, two_by_two, others)
}

fn error(built: Result<Base<u8, TestBrick, TestColor>, BaseError<TestBrick>>) -> BaseError<TestBrick> {
    match built {
        Ok(_) => panic!("the base should not have been built"),
        Err(error) => error,
    }
}

#[test]
fn test_base_checks_its_bricks() {
    let tall = shape("1x1x3", 1, 1, 3);
    let two_by_one_tall = shape("2x1x3", 2, 1, 3);
    let two_by_two_tall = shape("2x2x3", 2, 2, 3);
    let three_by_two = shape("3x2x1", 3, 2, 1);
    assert_eq!(BaseError::NotAOneByOneBrick(TWO_BY_ONE), error(base(TWO_BY_ONE, TWO_BY_ONE, TWO_BY_TWO, &[])));
    assert_eq!(BaseError::NotAPlate(tall), error(base(tall, TWO_BY_ONE, TWO_BY_TWO, &[])));
    assert_eq!(BaseError::NotATwoByOneBrick(three_by_two), error(base(ONE_BY_ONE, three_by_two, TWO_BY_TWO, &[])));
    assert_eq!(BaseError::NotAPlate(two_by_one_tall), error(base(ONE_BY_ONE, two_by_one_tall, TWO_BY_TWO, &[])));
    assert_eq!(BaseError::NotATwoByTwoBrick(TWO_BY_ONE), error(base(ONE_BY_ONE, TWO_BY_ONE, TWO_BY_ONE, &[])));
    assert_eq!(BaseError::NotAPlate(two_by_two_tall), error(base(ONE_BY_ONE, TWO_BY_ONE, two_by_two_tall, &[])));
    assert_eq!(BaseError::NotAPlate(tall), error(base(ONE_BY_ONE, TWO_BY_ONE, TWO_BY_TWO, &[TWO_BY_TWO, tall, two_by_two_tall])));
    assert!(base(ONE_BY_ONE, TWO_BY_ONE.rotate_90(), TWO_BY_TWO, &[]).is_ok());
}

#[test]
fn test_base_places_supports_below_plates() {
    let built = match base(ONE_BY_ONE, TWO_BY_ONE, TWO_BY_TWO, &[]) {
        Ok(base) => base,
        Err(_) => panic!("the base should have been built"),
    };
    assert_eq!((4, 4, 2), (built.length(), built.width(), built.height()));
    let placed = built.iter();
    let upper: Vec<(u32, u32)> = placed.iter().filter(|brick| brick.h == 1).map(|brick| (brick.l, brick.w)).collect();
    assert_eq!(vec![(0, 0), (0, 2), (2, 0), (2, 2)], upper);
    assert!(placed.iter().all(|brick| brick.color == RED && brick.h <= 1));
    assert!(placed.iter().filter(|brick| brick.h == 1).all(|brick| brick.brick == Brick::NonUnit(TWO_BY_TWO)));
    let lower = placed.iter().filter(|brick| brick.h == 0).count();
    assert_eq!(placed.len() - 4, lower);
    assert!(placed.iter().take(lower).all(|brick| brick.h == 0));
}

#[test]
fn test_pixel_image_holds_its_pixels_row_by_row() {
    assert!(PixelImage::from_rows(vec![RED.value; 5], 3, 2).is_none());
    assert!(PixelImage::from_rows(Vec::new(), 0, 7).is_some());
    let image = match PixelImage::from_rows(vec![RED.value, BLUE.value, BLUE.value, RED.value, RED.value, BLUE.value], 3, 2) {
        Some(image) => image,
        None => panic!("six pixels make an image of three by two"),
    };
    assert_eq!((3, 2), (image.length(), image.width()));
    assert_eq!(RED.value, image.pixel(0, 0));
    assert_eq!(BLUE.value, image.pixel(2, 0));
    assert_eq!(RED.value, image.pixel(0, 1));
    assert_eq!(BLUE.value, image.pixel(2, 1));

    let built: Result<TestMosaic, _> = brick_mosaic::Mosaic::from_image(&image, &palette(), |_, _, _| 1, |_, _, _, _| Brick::Unit(0u8));
    match built {
        Ok(mosaic) => {
            assert_eq!(6, mosaic.iter().len());
            assert_eq!(2, mosaic.sections()[0].chunks().len());
        },
        Err(_) => panic!("the mosaic should have been built"),
    }
}

#[test]
fn test_nearest_color_by_search() {
    assert_eq!(0, component_distance_squared(7, 7));
    assert_eq!(9, component_distance_squared(7, 10));
    assert_eq!(65025, component_distance_squared(255, 0));
    assert_eq!(
        260100,
        distance_squared(Srgba { red: 0, green: 0, blue: 0, alpha: 0 }, Srgba { red: 255, green: 255, blue: 255, alpha: 255 })
    );
    assert_eq!(
        1 + 4 + 9 + 16,
        distance_squared(Srgba { red: 1, green: 2, blue: 3, alpha: 4 }, Srgba { red: 2, green: 4, blue: 6, alpha: 8 })
    );

    let empty: [TestColor; 0] = [];
    assert_eq!(TestColor::default(), find_similar_color(RED.value, &empty));
    let colors = [TestColor::new(10, 10, 10, 255), TestColor::new(20, 20, 20, 255), TestColor::new(10, 10, 10, 255)];
    assert_eq!(colors[0], find_similar_color(Srgba { red: 14, green: 14, blue: 14, alpha: 255 }, &colors));
    assert_eq!(colors[1], find_similar_color(Srgba { red: 16, green: 16, blue: 16, alpha: 255 }, &colors));
    assert_eq!(colors[0], find_similar_color(Srgba { red: 15, green: 15, blue: 15, alpha: 255 }, &colors));

    let tree = EuclideanDistancePalette::new(&colors);
    assert_eq!(Some(colors[1]), tree.nearest_color(Srgba { red: 16, green: 16, blue: 16, alpha: 255 }));
    assert_eq!(Some(colors[0]), tree.nearest_color(Srgba { red: 11, green: 12, blue: 13, alpha: 250 }));
    assert_eq!(Some(colors[1]), tree.color_at(Some(1)));
    assert_eq!(None, tree.color_at(None));
    let none: EuclideanDistancePalette<TestColor> = EuclideanDistancePalette::new(&empty);
    assert_eq!(None, none.nearest_color(RED.value));
}

#[test]
fn test_sub_part_stands_at_the_middle_of_its_brick() {
    let color = LdrawColor::new(4, 180, 0, 0, 255);
    let plate = LdrawBrick { id: "3020.dat", length: 4, width: 2, height: 1, unit_brick: 0u8, rotated: false };
    let placed = PlacedBrick { l: 3, w: 5, h: 2, brick: Brick::NonUnit(plate), color };
    assert_eq!(
        SubPartPlace { color: 4, x: 100, y: -24, z: 80, rotated: false },
        place_sub_part(&placed, 10)
    );
    let turned = PlacedBrick { brick: Brick::NonUnit(plate.rotate_90()), ..placed };
    assert_eq!(
        SubPartPlace { color: 4, x: 80, y: -24, z: 60, rotated: true },
        place_sub_part(&turned, 10)
    );
    let unit: PlacedBrick<u8, LdrawBrick<&str, u8>, LdrawColor> =
        PlacedBrick { l: 0, w: 0, h: 0, brick: Brick::Unit(0), color };
    assert_eq!(SubPartPlace { color: 4, x: 10, y: -8, z: -10, rotated: false }, place_sub_part(&unit, 0));
    let far = PlacedBrick { l: u32::MAX, w: 0, h: u32::MAX, brick: Brick::NonUnit(plate), color };
    assert_eq!(
        SubPartPlace { color: 4, x: 85_899_345_940, y: -34_359_738_368, z: 85_899_345_880, rotated: false },
        place_sub_part(&far, u32::MAX)
    );
}

#[test]
fn test_placed_brick_is_moved_by_an_offset() {
    let placed: PlacedBrick<u8, TestBrick, TestColor> =
        PlacedBrick { l: 1, w: 2, h: 3, brick: Brick::NonUnit(TWO_BY_ONE), color: RED };
    assert_eq!(
        Some(PlacedBrick { l: 11, w: 22, h: 33, brick: Brick::NonUnit(TWO_BY_ONE), color: RED }),
        moved_by(&placed, 10, 20, 30)
    );
    assert_eq!(Some(placed), moved_by(&placed, 0, 0, 0));
    assert!(moved_by(&placed, u32::MAX - 1, 0, 0).is_some());
    assert_eq!(None, moved_by(&placed, u32::MAX, 0, 0));
    assert_eq!(None, moved_by(&placed, 0, u32::MAX - 1, 0));
    assert_eq!(None, moved_by(&placed, 0, 0, u32::MAX - 2));
}
