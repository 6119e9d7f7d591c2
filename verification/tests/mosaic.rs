use brick_mosaic::brick::{Brick, NonUnitBrick};
use brick_mosaic::chunk::Chunk;
use brick_mosaic::color::{RawColor, Srgba};
use brick_mosaic::mosaic::Mosaic;
use brick_mosaic::palette::EuclideanDistancePalette;
use brick_mosaic::pixels::{Image, Palette};
use rand::{Rng, SeedableRng};
use rand_chacha::ChaCha8Rng;

#[derive(Clone, Copy, Debug, Eq, PartialEq)]
struct TestBrick {
    id: &'static str,
    rotation_count: u8,
    length: u8,
    width: u8,
    height: u8,
    unit_brick: u8,
}

impl NonUnitBrick<u8> for TestBrick {
    fn spec_length(&self) -> u8 {
        self.length
    }

    fn spec_width(&self) -> u8 {
        self.width
    }

    fn spec_height(&self) -> u8 {
        self.height
    }

    fn spec_unit_brick(&self) -> u8 {
        self.unit_brick
    }

    fn spec_rotate_90(&self) -> Self {
        self.rotate_90()
    }

    fn spec_is_rotation_of(&self, other: &Self) -> bool {
        self.is_rotation_of(other)
    }

    fn obeys_rotation_spec() -> bool {
        true
    }

    fn length(&self) -> u8 {
        self.length
    }

    fn width(&self) -> u8 {
        self.width
    }

    fn height(&self) -> u8 {
        self.height
    }

    fn unit_brick(&self) -> u8 {
        self.unit_brick
    }

    fn rotate_90(&self) -> Self {
        TestBrick {
            id: self.id,
            rotation_count: (self.rotation_count + 1) % 4,
            length: self.width,
            width: self.length,
            height: self.height,
            unit_brick: self.unit_brick,
        }
    }

    fn is_rotation_of(&self, other: &Self) -> bool {
        self.id == other.id && self.unit_brick == other.unit_brick
    }
}

const UNIT_BRICK: u8 = 0;

const UNIT_BRICK_2: u8 = 1;

const UNIT_BRICK_3: u8 = 2;

const fn plate(id: &'static str, length: u8, width: u8, height: u8, unit_brick: u8) -> TestBrick {
    TestBrick { id, rotation_count: 0, length, width, height, unit_brick }
}

const ONE_BY_ONE_PLATE: TestBrick = plate("1x1x1", 1, 1, 1, UNIT_BRICK);

const TWO_BY_ONE_PLATE: TestBrick = plate("2x1x1", 2, 1, 1, UNIT_BRICK);

const TWO_BY_ONE_PLATE_2: TestBrick = plate("2x1x1", 2, 1, 1, UNIT_BRICK_3);

const ONE_BY_TWO_PLATE: TestBrick = plate("1x2x1", 1, 2, 1, UNIT_BRICK);

const FOUR_BY_FOUR_PLATE: TestBrick = plate("4x4x1", 4, 4, 1, UNIT_BRICK);

const FIVE_BY_ONE_PLATE: TestBrick = plate("5x1x1", 5, 1, 1, UNIT_BRICK);

const SIX_BY_ONE_PLATE: TestBrick = plate("6x1x1", 6, 1, 1, UNIT_BRICK);

const ONE_BY_ONE_BY_SIX_BRICK: TestBrick = plate("1x1x6", 1, 1, 6, UNIT_BRICK);

const ZERO_BY_TWO_PLATE: TestBrick = plate("0x2x1", 0, 2, 1, UNIT_BRICK);

const ZERO_HEIGHT_BRICK: TestBrick = plate("2x1x0", 2, 1, 0, UNIT_BRICK);

#[derive(Copy, Clone, Debug, Eq, PartialEq)]
struct TestColor {
    value: Srgba<u8>,
}

impl TestColor {
    const fn new(red: u8, green: u8, blue: u8, alpha: u8) -> Self {
        TestColor { value: Srgba { red, green, blue, alpha } }
    }
}

impl Default for TestColor {
    fn default() -> Self {
        TestColor::new(0, 0, 0, 0)
    }
}

impl From<TestColor> for Srgba<u8> {
    fn from(color: TestColor) -> Self {
        color.value
    }
}

const COLOR_1: TestColor = TestColor::new(235, 64, 52, 255);
const COLOR_2: TestColor = TestColor::new(235, 232, 52, 255);
const COLOR_3: TestColor = TestColor::new(52, 235, 55, 255);
const COLOR_4: TestColor = TestColor::new(52, 147, 235, 255);

struct TestImage {
    colors: Vec<RawColor>,
    length: u32,
    width: u32,
}

impl TestImage {
    fn new(length: u32, width: u32) -> Self {
        TestImage {
            colors: vec![RawColor { red: 0, green: 0, blue: 0, alpha: 0 }; length as usize * width as usize],
            length,
            width,
        }
    }

    fn put_pixel(&mut self, l: u32, w: u32, new_pixel: RawColor) {
        self.colors[w as usize * self.length as usize + l as usize] = new_pixel
    }
}

impl Image for TestImage {
    fn spec_pixel(&self, l: u32, w: u32) -> RawColor {
        self.pixel(l, w)
    }

    fn spec_length(&self) -> u32 {
        self.length
    }

    fn spec_width(&self) -> u32 {
        self.width
    }

    fn pixel(&self, l: u32, w: u32) -> RawColor {
        self.colors[w as usize * self.length as usize + l as usize]
    }

    fn length(&self) -> u32 {
        self.length
    }

    fn width(&self) -> u32 {
        self.width
    }
}

fn volume(brick: Brick<u8, TestBrick>) -> u32 {
    brick.length() as u32 * brick.width() as u32 * brick.height() as u32
}

fn assert_colors_match_img(img: &TestImage, section_l: u32, section_w: u32, chunk: &Chunk<u8, TestBrick, TestColor>) {
    for l in 0..chunk.length() {
        for w in 0..chunk.width() {
            if chunk.includes(l, w) {
                assert_eq!(img.pixel((l + chunk.l()) as u32 + section_l, (w + chunk.w()) as u32 + section_w), chunk.color().value);
            }
        }
    }
}

fn make_test_img() -> (TestImage, impl Palette<TestColor>) {
    let color1 = COLOR_1.value;
    let color2 = COLOR_2.value;
    let color3 = COLOR_3.value;
    let color4 = COLOR_4.value;
    let mut img = TestImage::new(4, 5);

    img.put_pixel(0, 0, color1);
    img.put_pixel(1, 0, color1);
    img.put_pixel(2, 0, color1);
    img.put_pixel(3, 0, color4);

    img.put_pixel(0, 1, color1);
    img.put_pixel(1, 1, color4);
    img.put_pixel(2, 1, color4);
    img.put_pixel(3, 1, color4);

    img.put_pixel(0, 2, color4);
    img.put_pixel(1, 2, color4);
    img.put_pixel(2, 2, color4);
    img.put_pixel(3, 2, color2);

    img.put_pixel(0, 3, color3);
    img.put_pixel(1, 3, color3);
    img.put_pixel(2, 3, color3);
    img.put_pixel(3, 3, color3);

    img.put_pixel(0, 4, color4);
    img.put_pixel(1, 4, color3);
    img.put_pixel(2, 4, color3);
    img.put_pixel(3, 4, color3);

    let palette: Vec<TestColor> = vec![color1, color2, color3, color4].into_iter()
        .map(|color| TestColor { value: color })
        .collect();

    (img, EuclideanDistancePalette::new(&palette))
}

fn assert_unit_brick(brick: Brick<u8, TestBrick>) {
    if let Brick::NonUnit(non_unit) = brick {
        panic!("Expected unit brick but found: {:?}", non_unit);
    }
}

#[test]
fn test_empty_mosaic() {
    let (_, palette) = make_test_img();

    let mosaic: Mosaic<u8, TestBrick, TestColor> = Mosaic::from_image(
        &TestImage::new(0, 0),
        &palette,
        |_, _, _| 1,
        |_, _, _, _| Brick::Unit(UNIT_BRICK)
    ).unwrap();

    assert_eq!(0, mosaic.sections().len());
    assert_eq!(0, mosaic.iter().into_iter().fold(0, |total, brick| total + volume(brick.brick)));
}

#[test]
fn test_height_all_zeroes() {
    let (img, palette) = make_test_img();

    let mosaic: Mosaic<u8, TestBrick, TestColor> = Mosaic::from_image(
        &img,
        &palette,
        |_, _, _| 0,
        |_, _, _, _| Brick::Unit(UNIT_BRICK)
    ).unwrap();

    assert_eq!(0, mosaic.sections().len());
    assert_eq!(0, mosaic.iter().into_iter().fold(0, |total, brick| total + volume(brick.brick)));
}

#[test]
fn test_height_all_ones() {
    let (img, palette) = make_test_img();

    let mosaic = Mosaic::from_image(
        &img,
        &palette,
        |_, _, _| 1,
        |_, _, _, _| Brick::Unit(UNIT_BRICK)
    ).unwrap();

    assert_eq!(1, mosaic.sections().len());
    let mut total_bricks = 0;
    for section in mosaic.sections() {
        let (l, w, h, chunks) = (&section.l(), &section.w(), &section.h(), section.chunks());
        assert_eq!(0, *l);
        assert_eq!(0, *w);
        assert_eq!(0, *h);
        assert_eq!(5, chunks.len());
        for chunk in chunks {
            assert_eq!(1, chunk.height());
            assert_colors_match_img(&img, *l, *w, chunk);
            total_bricks += chunk.bricks().iter().map(|brick| volume(brick.brick)).sum::<u32>();

            chunk.bricks().iter().for_each(|brick| {
                assert_unit_brick(brick.brick);
                assert_eq!(0, brick.h);
            });
        }
    }
    assert_eq!(4 * 5, total_bricks);
    assert_eq!(total_bricks, mosaic.iter().into_iter().fold(0, |total, brick| total + volume(brick.brick)));
}

#[test]
fn test_height_all_twos() {
    let (img, palette) = make_test_img();

    let mosaic = Mosaic::from_image(
        &img,
        &palette,
        |_, _, _| 2,
        |_, _, _, _| Brick::Unit(UNIT_BRICK)
    ).unwrap();

    assert_eq!(1, mosaic.sections().len());
    let mut total_bricks = 0;
    for section in mosaic.sections() {
        let (l, w, h, chunks) = (&section.l(), &section.w(), &section.h(), section.chunks());
        assert_eq!(0, *l);
        assert_eq!(0, *w);
        assert_eq!(0, *h);
        assert_eq!(5, chunks.len());
        for chunk in chunks {
            assert_eq!(2, chunk.height());
            assert_colors_match_img(&img, *l, *w, chunk);
            total_bricks += chunk.bricks().iter().map(|brick| volume(brick.brick)).sum::<u32>();

            chunk.bricks().iter().for_each(|brick| {
                assert_unit_brick(brick.brick);
                assert!(brick.h == 0 || brick.h == 1);
            });
        }
    }
    assert_eq!(4 * 5 * 2, total_bricks);
    assert_eq!(total_bricks, mosaic.iter().into_iter().fold(0, |total, brick| total + volume(brick.brick)));
}

#[test]
fn test_height_varied() {
    let (img, palette) = make_test_img();

    let heights = [
        [5, 2, 1, 1],
        [5, 5, 2, 2],
        [1, 0, 3, 2],
        [4, 3, 1, 2],
        [3, 1, 1, 4]
    ];
    let expected_total_bricks: u32 = heights.iter()
        .map(|row| row.iter().sum::<u32>())
        .sum::<u32>();

    let mosaic = Mosaic::from_image(
        &img,
        &palette,
        |l, w, _| heights[w as usize][l as usize],
        |_, _, _, _| Brick::Unit(UNIT_BRICK)
    ).unwrap();

    let mut total_bricks = 0;
    for section in mosaic.sections() {
        let (l, w, h, chunks) = (&section.l(), &section.w(), &section.h(), section.chunks());
        assert_eq!(0, *l);
        assert_eq!(0, *w);
        assert_eq!(0, *h);
        for chunk in chunks {
            assert_colors_match_img(&img, *l, *w, chunk);
            total_bricks += chunk.bricks().iter().map(|brick| volume(brick.brick)).sum::<u32>();
        }
    }
    assert_eq!(expected_total_bricks, total_bricks);
    assert_eq!(total_bricks, mosaic.iter().into_iter().fold(0, |total, brick| total + volume(brick.brick)));
}

#[test]
fn test_bricks_and_height_varied() {
    let (img, palette) = make_test_img();

    let heights = [
        [5, 2, 1, 1],
        [5, 5, 2, 2],
        [1, 0, 3, 2],
        [4, 3, 1, 2],
        [3, 1, 1, 4]
    ];
    let expected_total_bricks_even: u32 = heights.iter().enumerate()
        .filter(|(index, _)| index % 2 == 0)
        .map(|(_, row)| row)
        .map(|row| row.iter().sum::<u32>())
        .sum::<u32>();
    let expected_total_bricks_odd: u32 = heights.iter().enumerate()
        .filter(|(index, _)| index % 2 == 1)
        .map(|(_, row)| row)
        .map(|row| row.iter().sum::<u32>())
        .sum::<u32>();

    let mosaic = Mosaic::from_image(
        &img,
        &palette,
        |l, w, _| heights[w as usize][l as usize],
        |_, w, _, _| match w % 2 == 0 {
            true => Brick::Unit(UNIT_BRICK_2),
            false => Brick::Unit(UNIT_BRICK)
        }
    ).unwrap();

    let mut total_bricks_even = 0;
    let mut total_bricks_odd = 0;
    for section in mosaic.sections() {
        let (l, w, h, chunks) = (&section.l(), &section.w(), &section.h(), section.chunks());
        assert_eq!(0, *l);
        assert_eq!(0, *w);
        assert_eq!(0, *h);
        for chunk in chunks {
            assert_colors_match_img(&img, *l, *w, chunk);

            if (*w + chunk.w() as u32) % 2 == 0 {
                total_bricks_even += chunk.bricks().iter().map(|brick| volume(brick.brick)).sum::<u32>();
            } else {
                total_bricks_odd += chunk.bricks().iter().map(|brick| volume(brick.brick)).sum::<u32>();
            }
        }
    }
    assert_eq!(expected_total_bricks_even, total_bricks_even);
    assert_eq!(expected_total_bricks_odd, total_bricks_odd);
    assert_eq!(total_bricks_even + total_bricks_odd, mosaic.iter().into_iter().fold(0, |total, brick| total + volume(brick.brick)));
}

#[test]
fn test_mosaic_exactly_matches_section_length_width() {
    let (_, palette) = make_test_img();
    let size = u8::MAX as u32 - 1;

    let mut rng = ChaCha8Rng::seed_from_u64(1705276380);
    let mut img = TestImage::new(size, size);
    for x in 0..size {
        for y in 0..size {
            let color = match rng.gen_range(0..4) {
                0 => COLOR_1,
                1 => COLOR_2,
                2 => COLOR_3,
                _ => COLOR_4
            };
            img.put_pixel(x, y, color.value);
        }
    }

    let heights: Vec<Vec<u32>> = (0..size).into_iter().map(
        |_| (0..size).into_iter().map(|_| rng.gen_range(0..6)).collect()
    ).collect();
    let expected_total_bricks_even: u32 = heights.iter().enumerate()
        .filter(|(index, _)| index % 2 == 0)
        .map(|(_, row)| row)
        .map(|row| row.iter().sum::<u32>())
        .sum::<u32>();
    let expected_total_bricks_odd: u32 = heights.iter().enumerate()
        .filter(|(index, _)| index % 2 == 1)
        .map(|(_, row)| row)
        .map(|row| row.iter().sum::<u32>())
        .sum::<u32>();

    let mosaic = Mosaic::from_image(
        &img,
        &palette,
        |l, w, _| heights[w as usize][l as usize],
        |_, w, _, _| match w % 2 == 0 {
            true => Brick::Unit(UNIT_BRICK_2),
            false => Brick::Unit(UNIT_BRICK)
        }
    ).unwrap();

    let mut total_bricks_even = 0;
    let mut total_bricks_odd = 0;
    for section in mosaic.sections() {
        let (l, w, h, chunks) = (&section.l(), &section.w(), &section.h(), section.chunks());
        assert_eq!(0, *l);
        assert_eq!(0, *w);
        assert_eq!(0, *h);
        for chunk in chunks {
            assert_colors_match_img(&img, *l, *w, chunk);

            if (*w + chunk.w() as u32) % 2 == 0 {
                total_bricks_even += chunk.bricks().iter().map(|brick| volume(brick.brick)).sum::<u32>();
            } else {
                total_bricks_odd += chunk.bricks().iter().map(|brick| volume(brick.brick)).sum::<u32>();
            }
        }
    }
    assert_eq!(expected_total_bricks_even, total_bricks_even);
    assert_eq!(expected_total_bricks_odd, total_bricks_odd);
    assert_eq!(total_bricks_even + total_bricks_odd, mosaic.iter().into_iter().fold(0, |total, brick| total + volume(brick.brick)));
}

#[test]
fn test_mosaic_greater_than_section_length_width() {
    let (_, palette) = make_test_img();
    let size = 300;

    let mut rng = ChaCha8Rng::seed_from_u64(1705276380);
    let mut img = TestImage::new(size, size);
    for x in 0..size {
        for y in 0..size {
            let color = match rng.gen_range(0..4) {
                0 => COLOR_1,
                1 => COLOR_2,
                2 => COLOR_3,
                _ => COLOR_4
            };
            img.put_pixel(x, y, color.value);
        }
    }

    let heights: Vec<Vec<u32>> = (0..size).into_iter().map(
        |_| (0..size).into_iter().map(|_| rng.gen_range(0..6)).collect()
    ).collect();
    let expected_total_bricks_even: u32 = heights.iter().enumerate()
        .filter(|(index, _)| index % 2 == 0)
        .map(|(_, row)| row)
        .map(|row| row.iter().sum::<u32>())
        .sum::<u32>();
    let expected_total_bricks_odd: u32 = heights.iter().enumerate()
        .filter(|(index, _)| index % 2 == 1)
        .map(|(_, row)| row)
        .map(|row| row.iter().sum::<u32>())
        .sum::<u32>();

    let mosaic = Mosaic::from_image(
        &img,
        &palette,
        |l, w, _| heights[w as usize][l as usize],
        |_, w, _, _| match w % 2 == 0 {
            true => Brick::Unit(UNIT_BRICK_2),
            false => Brick::Unit(UNIT_BRICK)
        }
    ).unwrap();

    let mut total_bricks_even = 0;
    let mut total_bricks_odd = 0;
    for section in mosaic.sections() {
        let (l, w, h, chunks) = (&section.l(), &section.w(), &section.h(), section.chunks());
        assert!(*l == 0 || *l == 255);
        assert!(*w == 0 || *w == 255);
        assert_eq!(*h, 0);
        for chunk in chunks {
            assert_colors_match_img(&img, *l, *w, chunk);

            if (*w + chunk.w() as u32) % 2 == 0 {
                total_bricks_even += chunk.bricks().iter().map(|brick| volume(brick.brick)).sum::<u32>();
            } else {
                total_bricks_odd += chunk.bricks().iter().map(|brick| volume(brick.brick)).sum::<u32>();
            }
        }
    }
    assert_eq!(expected_total_bricks_even, total_bricks_even);
    assert_eq!(expected_total_bricks_odd, total_bricks_odd);
    assert_eq!(total_bricks_even + total_bricks_odd, mosaic.iter().into_iter().fold(0, |total, brick| total + volume(brick.brick)));
}

#[test]
fn test_mosaic_exactly_matches_section_height() {
    let (img, palette) = make_test_img();
    let size = u8::MAX as u32 - 1;
    let mut rng = ChaCha8Rng::seed_from_u64(1705276380);

    let heights: Vec<Vec<u32>> = (0..img.width()).into_iter().map(
        |_| (0..img.length()).into_iter().map(|_| rng.gen_range((size - 6)..size)).collect()
    ).collect();
    let expected_total_bricks_even: u32 = heights.iter().enumerate()
        .filter(|(index, _)| index % 2 == 0)
        .map(|(_, row)| row)
        .map(|row| row.iter().sum::<u32>())
        .sum::<u32>();
    let expected_total_bricks_odd: u32 = heights.iter().enumerate()
        .filter(|(index, _)| index % 2 == 1)
        .map(|(_, row)| row)
        .map(|row| row.iter().sum::<u32>())
        .sum::<u32>();

    let mosaic = Mosaic::from_image(
        &img,
        &palette,
        |l, w, _| heights[w as usize][l as usize],
        |_, w, _, _| match w % 2 == 0 {
            true => Brick::Unit(UNIT_BRICK_2),
            false => Brick::Unit(UNIT_BRICK)
        }
    ).unwrap();

    let mut total_bricks_even = 0;
    let mut total_bricks_odd = 0;
    for section in mosaic.sections() {
        let (l, w, h, chunks) = (&section.l(), &section.w(), &section.h(), section.chunks());
        assert_eq!(0, *l);
        assert_eq!(0, *w);
        assert_eq!(0, *h);
        for chunk in chunks {
            assert_colors_match_img(&img, *l, *w, chunk);

            if (*w + chunk.w() as u32) % 2 == 0 {
                total_bricks_even += chunk.bricks().iter().map(|brick| volume(brick.brick)).sum::<u32>();
            } else {
                total_bricks_odd += chunk.bricks().iter().map(|brick| volume(brick.brick)).sum::<u32>();
            }
        }
    }
    assert_eq!(expected_total_bricks_even, total_bricks_even);
    assert_eq!(expected_total_bricks_odd, total_bricks_odd);
    assert_eq!(total_bricks_even + total_bricks_odd, mosaic.iter().into_iter().fold(0, |total, brick| total + volume(brick.brick)));
}

#[test]
fn test_mosaic_greater_than_section_height() {
    let (img, palette) = make_test_img();
    let size = 300;
    let mut rng = ChaCha8Rng::seed_from_u64(1705276380);

    let heights: Vec<Vec<u32>> = (0..img.width()).into_iter().map(
        |_| (0..img.length()).into_iter().map(|_| rng.gen_range((size - 6)..size)).collect()
    ).collect();
    let expected_total_bricks_even: u32 = heights.iter().enumerate()
        .filter(|(index, _)| index % 2 == 0)
        .map(|(_, row)| row)
        .map(|row| row.iter().sum::<u32>())
        .sum::<u32>();
    let expected_total_bricks_odd: u32 = heights.iter().enumerate()
        .filter(|(index, _)| index % 2 == 1)
        .map(|(_, row)| row)
        .map(|row| row.iter().sum::<u32>())
        .sum::<u32>();

    let mosaic = Mosaic::from_image(
        &img,
        &palette,
        |l, w, _| heights[w as usize][l as usize],
        |_, w, _, _| match w % 2 == 0 {
            true => Brick::Unit(UNIT_BRICK_2),
            false => Brick::Unit(UNIT_BRICK)
        }
    ).unwrap();

    let mut total_bricks_even = 0;
    let mut total_bricks_odd = 0;
    for section in mosaic.sections() {
        let (l, w, h, chunks) = (&section.l(), &section.w(), &section.h(), section.chunks());
        assert_eq!(*l, 0);
        assert_eq!(*w, 0);
        assert!(*h == 0 || *h == 255);
        for chunk in chunks {
            assert_colors_match_img(&img, *l, *w, chunk);

            if (*w + chunk.w() as u32) % 2 == 0 {
                total_bricks_even += chunk.bricks().iter().map(|brick| volume(brick.brick)).sum::<u32>();
            } else {
                total_bricks_odd += chunk.bricks().iter().map(|brick| volume(brick.brick)).sum::<u32>();
            }
        }
    }
    assert_eq!(expected_total_bricks_even, total_bricks_even);
    assert_eq!(expected_total_bricks_odd, total_bricks_odd);
    assert_eq!(total_bricks_even + total_bricks_odd, mosaic.iter().into_iter().fold(0, |total, brick| total + volume(brick.brick)));
}

#[test]
fn test_empty_palette() {
    let (img, _) = make_test_img();

    let mosaic = Mosaic::from_image(
        &img,
        &EuclideanDistancePalette::new(&[]),
        |_, _, _| 1,
        |_, _, _, _| Brick::Unit(UNIT_BRICK)
    ).unwrap();

    assert_eq!(1, mosaic.sections().len());
    let mut total_bricks = 0;
    for section in mosaic.sections() {
        let (l, w, h, chunks) = (&section.l(), &section.w(), &section.h(), section.chunks());
        assert_eq!(0, *l);
        assert_eq!(0, *w);
        assert_eq!(0, *h);
        assert_eq!(1, chunks.len());
        for chunk in chunks {
            assert_eq!(1, chunk.height());
            total_bricks += chunk.bricks().iter().map(|brick| volume(brick.brick)).sum::<u32>();
            assert_eq!(TestColor::new(0, 0, 0, 0), chunk.color());

            chunk.bricks().iter().for_each(|brick| {
                assert_unit_brick(brick.brick);
                assert_eq!(0, brick.h);
            });
        }
    }
    assert_eq!(4 * 5, total_bricks);
    assert_eq!(total_bricks, mosaic.iter().into_iter().fold(0, |total, brick| total + volume(brick.brick)));
}

#[test]
fn test_reduce_empty_mosaic() {
    let (_, palette) = make_test_img();

    let mosaic: Mosaic<u8, TestBrick, TestColor> = Mosaic::from_image(
        &TestImage::new(0, 0),
        &palette,
        |_, _, _| 1,
        |_, _, _, _| Brick::Unit(UNIT_BRICK)
    ).unwrap().reduce_bricks(&[ONE_BY_TWO_PLATE], &[]).unwrap();

    assert_eq!(0, mosaic.sections().len());
    assert_eq!(0, mosaic.iter().into_iter().fold(0, |total, brick| total + volume(brick.brick)));
}

#[test]
fn test_reduce_no_bricks_given() {
    let (img, palette) = make_test_img();

    let heights = [
        [5, 2, 1, 1],
        [5, 5, 2, 2],
        [1, 0, 3, 2],
        [4, 3, 1, 2],
        [3, 1, 1, 4]
    ];
    let expected_total_bricks_even: u32 = heights.iter().enumerate()
        .filter(|(index, _)| index % 2 == 0)
        .map(|(_, row)| row)
        .map(|row| row.iter().sum::<u32>())
        .sum::<u32>();
    let expected_total_bricks_odd: u32 = heights.iter().enumerate()
        .filter(|(index, _)| index % 2 == 1)
        .map(|(_, row)| row)
        .map(|row| row.iter().sum::<u32>())
        .sum::<u32>();

    let mosaic = Mosaic::from_image(
        &img,
        &palette,
        |l, w, _| heights[w as usize][l as usize],
        |_, w, _, _| match w % 2 == 0 {
            true => Brick::Unit(UNIT_BRICK_2),
            false => Brick::Unit(UNIT_BRICK)
        }
    ).unwrap().reduce_bricks(&[], &[]).unwrap();

    let mut total_bricks_even = 0;
    let mut total_bricks_odd = 0;
    for section in mosaic.sections() {
        let (l, w, h, chunks) = (&section.l(), &section.w(), &section.h(), section.chunks());
        assert_eq!(0, *l);
        assert_eq!(0, *w);
        assert_eq!(0, *h);
        for chunk in chunks {
            assert_colors_match_img(&img, *l, *w, chunk);

            if (*w + chunk.w() as u32) % 2 == 0 {
                total_bricks_even += chunk.bricks().iter().map(|brick| volume(brick.brick)).sum::<u32>();
            } else {
                total_bricks_odd += chunk.bricks().iter().map(|brick| volume(brick.brick)).sum::<u32>();
            }
        }
    }
    assert_eq!(expected_total_bricks_even, total_bricks_even);
    assert_eq!(expected_total_bricks_odd, total_bricks_odd);
    assert_eq!(total_bricks_even + total_bricks_odd, mosaic.iter().into_iter().fold(0, |total, brick| total + volume(brick.brick)));
}

#[test]
fn test_reduce_all_bricks_excluded() {
    let (img, palette) = make_test_img();

    let heights = [
        [5, 2, 1, 1],
        [5, 5, 2, 2],
        [1, 0, 3, 2],
        [4, 3, 1, 2],
        [3, 1, 1, 4]
    ];
    let expected_total_bricks_even: u32 = heights.iter().enumerate()
        .filter(|(index, _)| index % 2 == 0)
        .map(|(_, row)| row)
        .map(|row| row.iter().sum::<u32>())
        .sum::<u32>();
    let expected_total_bricks_odd: u32 = heights.iter().enumerate()
        .filter(|(index, _)| index % 2 == 1)
        .map(|(_, row)| row)
        .map(|row| row.iter().sum::<u32>())
        .sum::<u32>();

    let mosaic = Mosaic::from_image(
        &img,
        &palette,
        |l, w, _| heights[w as usize][l as usize],
        |_, w, _, _| match w % 2 == 0 {
            true => Brick::Unit(UNIT_BRICK_2),
            false => Brick::Unit(UNIT_BRICK)
        }
    ).unwrap().reduce_bricks(
        &[TWO_BY_ONE_PLATE],
        &[
            (TWO_BY_ONE_PLATE, COLOR_1),
            (TWO_BY_ONE_PLATE, COLOR_2),
            (TWO_BY_ONE_PLATE, COLOR_3),
            (TWO_BY_ONE_PLATE, COLOR_4)
        ]
    ).unwrap();

    let mut total_bricks_even = 0;
    let mut total_bricks_odd = 0;
    for section in mosaic.sections() {
        let (l, w, h, chunks) = (&section.l(), &section.w(), &section.h(), section.chunks());
        assert_eq!(0, *l);
        assert_eq!(0, *w);
        assert_eq!(0, *h);
        for chunk in chunks {
            assert_colors_match_img(&img, *l, *w, chunk);

            if (*w + chunk.w() as u32) % 2 == 0 {
                total_bricks_even += chunk.bricks().iter().map(|brick| volume(brick.brick)).sum::<u32>();
            } else {
                total_bricks_odd += chunk.bricks().iter().map(|brick| volume(brick.brick)).sum::<u32>();
            }
        }
    }
    assert_eq!(expected_total_bricks_even, total_bricks_even);
    assert_eq!(expected_total_bricks_odd, total_bricks_odd);
    assert_eq!(total_bricks_even + total_bricks_odd, mosaic.iter().into_iter().fold(0, |total, brick| total + volume(brick.brick)));
    assert!(mosaic.iter().into_iter().all(|brick| brick.brick.length() == 1 && brick.brick.width() == 1));
}

#[test]
fn test_reduce_only_one_by_one_brick() {
    let (img, palette) = make_test_img();

    let heights = [
        [5, 2, 1, 1],
        [5, 5, 2, 2],
        [1, 0, 3, 2],
        [4, 3, 1, 2],
        [3, 1, 1, 4]
    ];
    let expected_total_bricks_even: u32 = heights.iter().enumerate()
        .filter(|(index, _)| index % 2 == 0)
        .map(|(_, row)| row)
        .map(|row| row.iter().sum::<u32>())
        .sum::<u32>();
    let expected_total_bricks_odd: u32 = heights.iter().enumerate()
        .filter(|(index, _)| index % 2 == 1)
        .map(|(_, row)| row)
        .map(|row| row.iter().sum::<u32>())
        .sum::<u32>();

    let mosaic = Mosaic::from_image(
        &img,
        &palette,
        |l, w, _| heights[w as usize][l as usize],
        |_, w, _, _| match w % 2 == 0 {
            true => Brick::Unit(UNIT_BRICK_2),
            false => Brick::Unit(UNIT_BRICK)
        }
    ).unwrap().reduce_bricks(&[TWO_BY_ONE_PLATE_2], &[]).unwrap();

    let mut total_bricks_even = 0;
    let mut total_bricks_odd = 0;
    for section in mosaic.sections() {
        let (l, w, h, chunks) = (&section.l(), &section.w(), &section.h(), section.chunks());
        assert_eq!(0, *l);
        assert_eq!(0, *w);
        assert_eq!(0, *h);
        for chunk in chunks {
            assert_colors_match_img(&img, *l, *w, chunk);

            if (*w + chunk.w() as u32) % 2 == 0 {
                total_bricks_even += chunk.bricks().iter().map(|brick| volume(brick.brick)).sum::<u32>();
            } else {
                total_bricks_odd += chunk.bricks().iter().map(|brick| volume(brick.brick)).sum::<u32>();
            }
        }
    }
    assert_eq!(expected_total_bricks_even, total_bricks_even);
    assert_eq!(expected_total_bricks_odd, total_bricks_odd);
    assert_eq!(total_bricks_even + total_bricks_odd, mosaic.iter().into_iter().fold(0, |total, brick| total + volume(brick.brick)));
}

#[test]
fn test_reduce_only_diff_type_bricks() {
    let (img, palette) = make_test_img();

    let heights = [
        [5, 2, 1, 1],
        [5, 5, 2, 2],
        [1, 0, 3, 2],
        [4, 3, 1, 2],
        [3, 1, 1, 4]
    ];
    let expected_total_bricks_even: u32 = heights.iter().enumerate()
        .filter(|(index, _)| index % 2 == 0)
        .map(|(_, row)| row)
        .map(|row| row.iter().sum::<u32>())
        .sum::<u32>();
    let expected_total_bricks_odd: u32 = heights.iter().enumerate()
        .filter(|(index, _)| index % 2 == 1)
        .map(|(_, row)| row)
        .map(|row| row.iter().sum::<u32>())
        .sum::<u32>();

    let mosaic = Mosaic::from_image(
        &img,
        &palette,
        |l, w, _| heights[w as usize][l as usize],
        |_, w, _, _| match w % 2 == 0 {
            true => Brick::Unit(UNIT_BRICK_2),
            false => Brick::Unit(UNIT_BRICK)
        }
    ).unwrap().reduce_bricks(&[ONE_BY_ONE_PLATE], &[]).unwrap();

    let mut total_bricks_even = 0;
    let mut total_bricks_odd = 0;
    for section in mosaic.sections() {
        let (l, w, h, chunks) = (&section.l(), &section.w(), &section.h(), section.chunks());
        assert_eq!(0, *l);
        assert_eq!(0, *w);
        assert_eq!(0, *h);
        for chunk in chunks {
            assert_colors_match_img(&img, *l, *w, chunk);

            if (*w + chunk.w() as u32) % 2 == 0 {
                total_bricks_even += chunk.bricks().iter().map(|brick| volume(brick.brick)).sum::<u32>();
            } else {
                total_bricks_odd += chunk.bricks().iter().map(|brick| volume(brick.brick)).sum::<u32>();
            }
        }
    }
    assert_eq!(expected_total_bricks_even, total_bricks_even);
    assert_eq!(expected_total_bricks_odd, total_bricks_odd);
    assert_eq!(total_bricks_even + total_bricks_odd, mosaic.iter().into_iter().fold(0, |total, brick| total + volume(brick.brick)));
    assert!(mosaic.iter().into_iter().all(|brick| brick.brick.unit_brick() == UNIT_BRICK || brick.brick.unit_brick() == UNIT_BRICK_2));
}

#[test]
fn test_reduce_only_some_colors_excluded() {
    let (img, palette) = make_test_img();

    let heights = [
        [5, 2, 1, 1],
        [5, 5, 2, 2],
        [1, 0, 3, 2],
        [4, 3, 1, 2],
        [3, 1, 1, 4]
    ];
    let expected_total_bricks_even: u32 = heights.iter().enumerate()
        .filter(|(index, _)| index % 2 == 0)
        .map(|(_, row)| row)
        .map(|row| row.iter().sum::<u32>())
        .sum::<u32>();
    let expected_total_bricks_odd: u32 = heights.iter().enumerate()
        .filter(|(index, _)| index % 2 == 1)
        .map(|(_, row)| row)
        .map(|row| row.iter().sum::<u32>())
        .sum::<u32>();

    let mosaic = Mosaic::from_image(
        &img,
        &palette,
        |l, w, _| heights[w as usize][l as usize],
        |_, w, _, _| match w % 2 == 0 {
            true => Brick::Unit(UNIT_BRICK_2),
            false => Brick::Unit(UNIT_BRICK)
        }
    ).unwrap().reduce_bricks(&[TWO_BY_ONE_PLATE],
                             &[
                                 (TWO_BY_ONE_PLATE, COLOR_1),
                                 (TWO_BY_ONE_PLATE, COLOR_2)
                             ]
    ).unwrap();

    let mut total_bricks_even = 0;
    let mut total_bricks_odd = 0;
    for section in mosaic.sections() {
        let (l, w, h, chunks) = (&section.l(), &section.w(), &section.h(), section.chunks());
        assert_eq!(0, *l);
        assert_eq!(0, *w);
        assert_eq!(0, *h);
        for chunk in chunks {
            assert_colors_match_img(&img, *l, *w, chunk);

            if (*w + chunk.w() as u32) % 2 == 0 {
                total_bricks_even += chunk.bricks().iter().map(|brick| volume(brick.brick)).sum::<u32>();
            } else {
                total_bricks_odd += chunk.bricks().iter().map(|brick| volume(brick.brick)).sum::<u32>();
            }
        }
    }
    assert_eq!(expected_total_bricks_even, total_bricks_even);
    assert_eq!(expected_total_bricks_odd, total_bricks_odd);
    assert_eq!(total_bricks_even + total_bricks_odd, mosaic.iter().into_iter().fold(0, |total, brick| total + volume(brick.brick)));
    assert!(mosaic.iter().into_iter().all(|brick| (brick.brick.length() == 1 && brick.brick.width() == 1) || (brick.color != COLOR_1 && brick.color != COLOR_2)));
    assert!(mosaic.iter().into_iter().any(|brick| brick.brick.length() == 2 && brick.brick.width() == 1));
}

#[test]
fn test_reduce_only_some_colors_excluded_uses_rotated_brick() {
    let (img, palette) = make_test_img();

    let heights = [
        [5, 2, 1, 1],
        [5, 5, 2, 2],
        [1, 0, 3, 2],
        [4, 3, 1, 2],
        [3, 1, 1, 4]
    ];
    let expected_total_bricks_even: u32 = heights.iter()
        .map(|row| row.iter().enumerate().filter(|(index, _)| index % 2 == 0).map(|(_, item)| item).sum::<u32>())
        .sum::<u32>();
    let expected_total_bricks_odd: u32 = heights.iter()
        .map(|row| row.iter().enumerate().filter(|(index, _)| index % 2 == 1).map(|(_, item)| item).sum::<u32>())
        .sum::<u32>();

    let mosaic = Mosaic::from_image(
        &img,
        &palette,
        |l, w, _| heights[w as usize][l as usize],
        |l, _, _, _| match l % 2 == 0 {
            true => Brick::Unit(UNIT_BRICK_2),
            false => Brick::Unit(UNIT_BRICK)
        }
    ).unwrap().reduce_bricks(&[TWO_BY_ONE_PLATE],
                             &[
                                 (TWO_BY_ONE_PLATE, COLOR_1),
                                 (TWO_BY_ONE_PLATE, COLOR_2)
                             ]
    ).unwrap();

    let mut total_bricks_even = 0;
    let mut total_bricks_odd = 0;
    for section in mosaic.sections() {
        let (l, w, h, chunks) = (&section.l(), &section.w(), &section.h(), section.chunks());
        assert_eq!(0, *l);
        assert_eq!(0, *w);
        assert_eq!(0, *h);
        for chunk in chunks {
            assert_colors_match_img(&img, *l, *w, chunk);

            if chunk.l() % 2 == 0 {
                total_bricks_even += chunk.bricks().iter().map(|brick| volume(brick.brick)).sum::<u32>();
            } else {
                total_bricks_odd += chunk.bricks().iter().map(|brick| volume(brick.brick)).sum::<u32>();
            }
        }
    }
    assert_eq!(expected_total_bricks_even, total_bricks_even);
    assert_eq!(expected_total_bricks_odd, total_bricks_odd);
    assert_eq!(total_bricks_even + total_bricks_odd, mosaic.iter().into_iter().fold(0, |total, brick| total + volume(brick.brick)));
    assert!(mosaic.iter().into_iter().all(|brick| (brick.brick.length() == 1 && brick.brick.width() == 1) || (brick.color != COLOR_1 && brick.color != COLOR_2)));
    assert!(mosaic.iter().into_iter().any(|brick| brick.brick.length() == 1 && brick.brick.width() == 2));
}

#[test]
fn test_reduce_brick_not_provided_excluded() {
    let (img, palette) = make_test_img();

    let heights = [
        [5, 2, 1, 1],
        [5, 5, 2, 2],
        [1, 0, 3, 2],
        [4, 3, 1, 2],
        [3, 1, 1, 4]
    ];
    let expected_total_bricks_even: u32 = heights.iter().enumerate()
        .filter(|(index, _)| index % 2 == 0)
        .map(|(_, row)| row)
        .map(|row| row.iter().sum::<u32>())
        .sum::<u32>();
    let expected_total_bricks_odd: u32 = heights.iter().enumerate()
        .filter(|(index, _)| index % 2 == 1)
        .map(|(_, row)| row)
        .map(|row| row.iter().sum::<u32>())
        .sum::<u32>();

    let mosaic = Mosaic::from_image(
        &img,
        &palette,
        |l, w, _| heights[w as usize][l as usize],
        |_, w, _, _| match w % 2 == 0 {
            true => Brick::Unit(UNIT_BRICK_2),
            false => Brick::Unit(UNIT_BRICK)
        }
    ).unwrap().reduce_bricks(&[TWO_BY_ONE_PLATE],
                             &[
                                 (TWO_BY_ONE_PLATE, COLOR_1),
                                 (TWO_BY_ONE_PLATE, COLOR_2),
                                 (FOUR_BY_FOUR_PLATE, COLOR_1)
                             ]
    ).unwrap();

    let mut total_bricks_even = 0;
    let mut total_bricks_odd = 0;
    for section in mosaic.sections() {
        let (l, w, h, chunks) = (&section.l(), &section.w(), &section.h(), section.chunks());
        assert_eq!(0, *l);
        assert_eq!(0, *w);
        assert_eq!(0, *h);
        for chunk in chunks {
            assert_colors_match_img(&img, *l, *w, chunk);

            if (*w + chunk.w() as u32) % 2 == 0 {
                total_bricks_even += chunk.bricks().iter().map(|brick| volume(brick.brick)).sum::<u32>();
            } else {
                total_bricks_odd += chunk.bricks().iter().map(|brick| volume(brick.brick)).sum::<u32>();
            }
        }
    }
    assert_eq!(expected_total_bricks_even, total_bricks_even);
    assert_eq!(expected_total_bricks_odd, total_bricks_odd);
    assert_eq!(total_bricks_even + total_bricks_odd, mosaic.iter().into_iter().fold(0, |total, brick| total + volume(brick.brick)));
    assert!(mosaic.iter().into_iter().all(|brick| (brick.brick.length() == 1 && brick.brick.width() == 1) || (brick.color != COLOR_1 && brick.color != COLOR_2)));
    assert!(mosaic.iter().into_iter().any(|brick| brick.brick.length() == 2 && brick.brick.width() == 1));
}

#[test]
fn test_reduce_color_not_provided_excluded() {
    let (img, palette) = make_test_img();

    let heights = [
        [5, 2, 1, 1],
        [5, 5, 2, 2],
        [1, 0, 3, 2],
        [4, 3, 1, 2],
        [3, 1, 1, 4]
    ];
    let expected_total_bricks_even: u32 = heights.iter().enumerate()
        .filter(|(index, _)| index % 2 == 0)
        .map(|(_, row)| row)
        .map(|row| row.iter().sum::<u32>())
        .sum::<u32>();
    let expected_total_bricks_odd: u32 = heights.iter().enumerate()
        .filter(|(index, _)| index % 2 == 1)
        .map(|(_, row)| row)
        .map(|row| row.iter().sum::<u32>())
        .sum::<u32>();

    let mosaic = Mosaic::from_image(
        &img,
        &palette,
        |l, w, _| heights[w as usize][l as usize],
        |_, w, _, _| match w % 2 == 0 {
            true => Brick::Unit(UNIT_BRICK_2),
            false => Brick::Unit(UNIT_BRICK)
        }
    ).unwrap().reduce_bricks(&[TWO_BY_ONE_PLATE],
                             &[
                                 (TWO_BY_ONE_PLATE, COLOR_1),
                                 (TWO_BY_ONE_PLATE, COLOR_2),
                                 (TWO_BY_ONE_PLATE, TestColor::new(0, 1, 2, 3))
                             ]
    ).unwrap();

    let mut total_bricks_even = 0;
    let mut total_bricks_odd = 0;
    for section in mosaic.sections() {
        let (l, w, h, chunks) = (&section.l(), &section.w(), &section.h(), section.chunks());
        assert_eq!(0, *l);
        assert_eq!(0, *w);
        assert_eq!(0, *h);
        for chunk in chunks {
            assert_colors_match_img(&img, *l, *w, chunk);

            if (*w + chunk.w() as u32) % 2 == 0 {
                total_bricks_even += chunk.bricks().iter().map(|brick| volume(brick.brick)).sum::<u32>();
            } else {
                total_bricks_odd += chunk.bricks().iter().map(|brick| volume(brick.brick)).sum::<u32>();
            }
        }
    }
    assert_eq!(expected_total_bricks_even, total_bricks_even);
    assert_eq!(expected_total_bricks_odd, total_bricks_odd);
    assert_eq!(total_bricks_even + total_bricks_odd, mosaic.iter().into_iter().fold(0, |total, brick| total + volume(brick.brick)));
    assert!(mosaic.iter().into_iter().all(|brick| (brick.brick.length() == 1 && brick.brick.width() == 1) || (brick.color != COLOR_1 && brick.color != COLOR_2)));
    assert!(mosaic.iter().into_iter().any(|brick| brick.brick.length() == 2 && brick.brick.width() == 1));
}

#[test]
fn test_reduce_brick_longer_than_mosaic_ignored() {
    let (img, palette) = make_test_img();

    let heights = [
        [5, 2, 1, 1],
        [5, 5, 2, 2],
        [1, 0, 3, 2],
        [4, 3, 1, 2],
        [3, 1, 1, 4]
    ];
    let expected_total_bricks_even: u32 = heights.iter().enumerate()
        .filter(|(index, _)| index % 2 == 0)
        .map(|(_, row)| row)
        .map(|row| row.iter().sum::<u32>())
        .sum::<u32>();
    let expected_total_bricks_odd: u32 = heights.iter().enumerate()
        .filter(|(index, _)| index % 2 == 1)
        .map(|(_, row)| row)
        .map(|row| row.iter().sum::<u32>())
        .sum::<u32>();

    let mosaic = Mosaic::from_image(
        &img,
        &palette,
        |l, w, _| heights[w as usize][l as usize],
        |_, w, _, _| match w % 2 == 0 {
            true => Brick::Unit(UNIT_BRICK_2),
            false => Brick::Unit(UNIT_BRICK)
        }
    ).unwrap().reduce_bricks(&[SIX_BY_ONE_PLATE, TWO_BY_ONE_PLATE],
                             &[
                                 (TWO_BY_ONE_PLATE, COLOR_1),
                                 (TWO_BY_ONE_PLATE, COLOR_2)
                             ]
    ).unwrap();

    let mut total_bricks_even = 0;
    let mut total_bricks_odd = 0;
    for section in mosaic.sections() {
        let (l, w, h, chunks) = (&section.l(), &section.w(), &section.h(), section.chunks());
        assert_eq!(0, *l);
        assert_eq!(0, *w);
        assert_eq!(0, *h);
        for chunk in chunks {
            assert_colors_match_img(&img, *l, *w, chunk);

            if (*w + chunk.w() as u32) % 2 == 0 {
                total_bricks_even += chunk.bricks().iter().map(|brick| volume(brick.brick)).sum::<u32>();
            } else {
                total_bricks_odd += chunk.bricks().iter().map(|brick| volume(brick.brick)).sum::<u32>();
            }
        }
    }
    assert_eq!(expected_total_bricks_even, total_bricks_even);
    assert_eq!(expected_total_bricks_odd, total_bricks_odd);
    assert_eq!(total_bricks_even + total_bricks_odd, mosaic.iter().into_iter().fold(0, |total, brick| total + volume(brick.brick)));
    assert!(mosaic.iter().into_iter().all(|brick| (brick.brick.length() == 1 && brick.brick.width() == 1) || (brick.color != COLOR_1 && brick.color != COLOR_2)));
    assert!(mosaic.iter().into_iter().any(|brick| brick.brick.length() == 2 && brick.brick.width() == 1));
}

#[test]
fn test_reduce_brick_wider_than_mosaic_ignored() {
    let (img, palette) = make_test_img();

    let heights = [
        [5, 2, 1, 1],
        [5, 5, 2, 2],
        [1, 0, 3, 2],
        [4, 3, 1, 2],
        [3, 1, 1, 4]
    ];
    let expected_total_bricks_even: u32 = heights.iter().enumerate()
        .filter(|(index, _)| index % 2 == 0)
        .map(|(_, row)| row)
        .map(|row| row.iter().sum::<u32>())
        .sum::<u32>();
    let expected_total_bricks_odd: u32 = heights.iter().enumerate()
        .filter(|(index, _)| index % 2 == 1)
        .map(|(_, row)| row)
        .map(|row| row.iter().sum::<u32>())
        .sum::<u32>();

    let mosaic = Mosaic::from_image(
        &img,
        &palette,
        |l, w, _| heights[w as usize][l as usize],
        |_, w, _, _| match w % 2 == 0 {
            true => Brick::Unit(UNIT_BRICK_2),
            false => Brick::Unit(UNIT_BRICK)
        }
    ).unwrap().reduce_bricks(&[FIVE_BY_ONE_PLATE.rotate_90(), TWO_BY_ONE_PLATE],
                             &[
                                 (TWO_BY_ONE_PLATE, COLOR_1),
                                 (TWO_BY_ONE_PLATE, COLOR_2)
                             ]
    ).unwrap();

    let mut total_bricks_even = 0;
    let mut total_bricks_odd = 0;
    for section in mosaic.sections() {
        let (l, w, h, chunks) = (&section.l(), &section.w(), &section.h(), section.chunks());
        assert_eq!(0, *l);
        assert_eq!(0, *w);
        assert_eq!(0, *h);
        for chunk in chunks {
            assert_colors_match_img(&img, *l, *w, chunk);

            if (*w + chunk.w() as u32) % 2 == 0 {
                total_bricks_even += chunk.bricks().iter().map(|brick| volume(brick.brick)).sum::<u32>();
            } else {
                total_bricks_odd += chunk.bricks().iter().map(|brick| volume(brick.brick)).sum::<u32>();
            }
        }
    }
    assert_eq!(expected_total_bricks_even, total_bricks_even);
    assert_eq!(expected_total_bricks_odd, total_bricks_odd);
    assert_eq!(total_bricks_even + total_bricks_odd, mosaic.iter().into_iter().fold(0, |total, brick| total + volume(brick.brick)));
    assert!(mosaic.iter().into_iter().all(|brick| (brick.brick.length() == 1 && brick.brick.width() == 1) || (brick.color != COLOR_1 && brick.color != COLOR_2)));
    assert!(mosaic.iter().into_iter().any(|brick| brick.brick.length() == 2 && brick.brick.width() == 1));
}

#[test]
fn test_reduce_brick_taller_than_mosaic_ignored() {
    let (img, palette) = make_test_img();

    let heights = [
        [5, 2, 1, 1],
        [5, 5, 2, 2],
        [1, 0, 3, 2],
        [4, 3, 1, 2],
        [3, 1, 1, 4]
    ];
    let expected_total_bricks_even: u32 = heights.iter().enumerate()
        .filter(|(index, _)| index % 2 == 0)
        .map(|(_, row)| row)
        .map(|row| row.iter().sum::<u32>())
        .sum::<u32>();
    let expected_total_bricks_odd: u32 = heights.iter().enumerate()
        .filter(|(index, _)| index % 2 == 1)
        .map(|(_, row)| row)
        .map(|row| row.iter().sum::<u32>())
        .sum::<u32>();

    let mosaic = Mosaic::from_image(
        &img,
        &palette,
        |l, w, _| heights[w as usize][l as usize],
        |_, w, _, _| match w % 2 == 0 {
            true => Brick::Unit(UNIT_BRICK_2),
            false => Brick::Unit(UNIT_BRICK)
        }
    ).unwrap().reduce_bricks(&[ONE_BY_ONE_BY_SIX_BRICK, TWO_BY_ONE_PLATE],
                             &[
                                 (TWO_BY_ONE_PLATE, COLOR_1),
                                 (TWO_BY_ONE_PLATE, COLOR_2)
                             ]
    ).unwrap();

    let mut total_bricks_even = 0;
    let mut total_bricks_odd = 0;
    for section in mosaic.sections() {
        let (l, w, h, chunks) = (&section.l(), &section.w(), &section.h(), section.chunks());
        assert_eq!(0, *l);
        assert_eq!(0, *w);
        assert_eq!(0, *h);
        for chunk in chunks {
            assert_colors_match_img(&img, *l, *w, chunk);

            if (*w + chunk.w() as u32) % 2 == 0 {
                total_bricks_even += chunk.bricks().iter().map(|brick| volume(brick.brick)).sum::<u32>();
            } else {
                total_bricks_odd += chunk.bricks().iter().map(|brick| volume(brick.brick)).sum::<u32>();
            }
        }
    }
    assert_eq!(expected_total_bricks_even, total_bricks_even);
    assert_eq!(expected_total_bricks_odd, total_bricks_odd);
    assert_eq!(total_bricks_even + total_bricks_odd, mosaic.iter().into_iter().fold(0, |total, brick| total + volume(brick.brick)));
    assert!(mosaic.iter().into_iter().all(|brick| (brick.brick.length() == 1 && brick.brick.width() == 1) || (brick.color != COLOR_1 && brick.color != COLOR_2)));
    assert!(mosaic.iter().into_iter().any(|brick| brick.brick.length() == 2 && brick.brick.width() == 1));
}

#[test]
fn test_reduce_zero_length_brick() {
    let (img, palette) = make_test_img();

    let heights = [
        [5, 2, 1, 1],
        [5, 5, 2, 2],
        [1, 0, 3, 2],
        [4, 3, 1, 2],
        [3, 1, 1, 4]
    ];
    let expected_total_bricks_even: u32 = heights.iter().enumerate()
        .filter(|(index, _)| index % 2 == 0)
        .map(|(_, row)| row)
        .map(|row| row.iter().sum::<u32>())
        .sum::<u32>();
    let expected_total_bricks_odd: u32 = heights.iter().enumerate()
        .filter(|(index, _)| index % 2 == 1)
        .map(|(_, row)| row)
        .map(|row| row.iter().sum::<u32>())
        .sum::<u32>();

    let mosaic = Mosaic::from_image(
        &img,
        &palette,
        |l, w, _| heights[w as usize][l as usize],
        |_, w, _, _| match w % 2 == 0 {
            true => Brick::Unit(UNIT_BRICK_2),
            false => Brick::Unit(UNIT_BRICK)
        }
    ).unwrap().reduce_bricks(&[ZERO_BY_TWO_PLATE], &[]).unwrap();

    let mut total_bricks_even = 0;
    let mut total_bricks_odd = 0;
    for section in mosaic.sections() {
        let (l, w, h, chunks) = (&section.l(), &section.w(), &section.h(), section.chunks());
        assert_eq!(0, *l);
        assert_eq!(0, *w);
        assert_eq!(0, *h);
        for chunk in chunks {
            assert_colors_match_img(&img, *l, *w, chunk);

            if (*w + chunk.w() as u32) % 2 == 0 {
                total_bricks_even += chunk.bricks().iter().map(|brick| volume(brick.brick)).sum::<u32>();
            } else {
                total_bricks_odd += chunk.bricks().iter().map(|brick| volume(brick.brick)).sum::<u32>();
            }
        }
    }
    assert_eq!(expected_total_bricks_even, total_bricks_even);
    assert_eq!(expected_total_bricks_odd, total_bricks_odd);
    assert_eq!(total_bricks_even + total_bricks_odd, mosaic.iter().into_iter().fold(0, |total, brick| total + volume(brick.brick)));
    assert!(mosaic.iter().into_iter().all(|brick| brick.brick.length() == 1 && brick.brick.width() == 1));
}

#[test]
fn test_reduce_zero_width_brick() {
    let (img, palette) = make_test_img();

    let heights = [
        [5, 2, 1, 1],
        [5, 5, 2, 2],
        [1, 0, 3, 2],
        [4, 3, 1, 2],
        [3, 1, 1, 4]
    ];
    let expected_total_bricks_even: u32 = heights.iter().enumerate()
        .filter(|(index, _)| index % 2 == 0)
        .map(|(_, row)| row)
        .map(|row| row.iter().sum::<u32>())
        .sum::<u32>();
    let expected_total_bricks_odd: u32 = heights.iter().enumerate()
        .filter(|(index, _)| index % 2 == 1)
        .map(|(_, row)| row)
        .map(|row| row.iter().sum::<u32>())
        .sum::<u32>();

    let mosaic = Mosaic::from_image(
        &img,
        &palette,
        |l, w, _| heights[w as usize][l as usize],
        |_, w, _, _| match w % 2 == 0 {
            true => Brick::Unit(UNIT_BRICK_2),
            false => Brick::Unit(UNIT_BRICK)
        }
    ).unwrap().reduce_bricks(&[ZERO_BY_TWO_PLATE.rotate_90()], &[]).unwrap();

    let mut total_bricks_even = 0;
    let mut total_bricks_odd = 0;
    for section in mosaic.sections() {
        let (l, w, h, chunks) = (&section.l(), &section.w(), &section.h(), section.chunks());
        assert_eq!(0, *l);
        assert_eq!(0, *w);
        assert_eq!(0, *h);
        for chunk in chunks {
            assert_colors_match_img(&img, *l, *w, chunk);

            if (*w + chunk.w() as u32) % 2 == 0 {
                total_bricks_even += chunk.bricks().iter().map(|brick| volume(brick.brick)).sum::<u32>();
            } else {
                total_bricks_odd += chunk.bricks().iter().map(|brick| volume(brick.brick)).sum::<u32>();
            }
        }
    }
    assert_eq!(expected_total_bricks_even, total_bricks_even);
    assert_eq!(expected_total_bricks_odd, total_bricks_odd);
    assert_eq!(total_bricks_even + total_bricks_odd, mosaic.iter().into_iter().fold(0, |total, brick| total + volume(brick.brick)));
    assert!(mosaic.iter().into_iter().all(|brick| brick.brick.length() == 1 && brick.brick.width() == 1));
}

#[test]
fn test_reduce_zero_height_brick() {
    let (img, palette) = make_test_img();

    let heights = [
        [5, 2, 1, 1],
        [5, 5, 2, 2],
        [1, 0, 3, 2],
        [4, 3, 1, 2],
        [3, 1, 1, 4]
    ];
    let expected_total_bricks_even: u32 = heights.iter().enumerate()
        .filter(|(index, _)| index % 2 == 0)
        .map(|(_, row)| row)
        .map(|row| row.iter().sum::<u32>())
        .sum::<u32>();
    let expected_total_bricks_odd: u32 = heights.iter().enumerate()
        .filter(|(index, _)| index % 2 == 1)
        .map(|(_, row)| row)
        .map(|row| row.iter().sum::<u32>())
        .sum::<u32>();

    let mosaic = Mosaic::from_image(
        &img,
        &palette,
        |l, w, _| heights[w as usize][l as usize],
        |_, w, _, _| match w % 2 == 0 {
            true => Brick::Unit(UNIT_BRICK_2),
            false => Brick::Unit(UNIT_BRICK)
        }
    ).unwrap().reduce_bricks(&[ZERO_HEIGHT_BRICK], &[]).unwrap();

    let mut total_bricks_even = 0;
    let mut total_bricks_odd = 0;
    for section in mosaic.sections() {
        let (l, w, h, chunks) = (&section.l(), &section.w(), &section.h(), section.chunks());
        assert_eq!(0, *l);
        assert_eq!(0, *w);
        assert_eq!(0, *h);
        for chunk in chunks {
            assert_colors_match_img(&img, *l, *w, chunk);

            if (*w + chunk.w() as u32) % 2 == 0 {
                total_bricks_even += chunk.bricks().iter().map(|brick| volume(brick.brick)).sum::<u32>();
            } else {
                total_bricks_odd += chunk.bricks().iter().map(|brick| volume(brick.brick)).sum::<u32>();
            }
        }
    }
    assert_eq!(expected_total_bricks_even, total_bricks_even);
    assert_eq!(expected_total_bricks_odd, total_bricks_odd);
    assert_eq!(total_bricks_even + total_bricks_odd, mosaic.iter().into_iter().fold(0, |total, brick| total + volume(brick.brick)));
    assert!(mosaic.iter().into_iter().all(|brick| brick.brick.length() == 1 && brick.brick.width() == 1));
}
