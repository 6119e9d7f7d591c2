use brick_mosaic::color::{RawColor, Srgba};
use brick_mosaic::palette::EuclideanDistancePalette;
use brick_mosaic::pixels::Palette;

#[derive(Copy, Clone, Debug, Eq, PartialEq)]
struct TestColor {
    value: Srgba<u8>,
}

impl TestColor {
    const fn new(red: u8, green: u8, blue: u8, alpha: u8) -> Self {
        TestColor { value: Srgba { red, green, blue, alpha } }
    }
}

impl Default for TestColor {
    fn default() -> Self {
        TestColor::new(0, 0, 0, 0)
    }
}

impl From<TestColor> for Srgba<u8> {
    fn from(color: TestColor) -> Self {
        color.value
    }
}

#[test]
fn test_empty_euclidean() {
    let palette: EuclideanDistancePalette<TestColor> = EuclideanDistancePalette::new(&[]);
    let nearest = palette.nearest(RawColor { red: 2, green: 86, blue: 105, alpha: 203 });
    assert!(nearest.is_none());
}

#[test]
fn test_euclidean_finds_red() {
    let palette = EuclideanDistancePalette::new(&[
        TestColor::new(128, 127, 127, 127),
        TestColor::new(127, 128, 127, 127),
        TestColor::new(127, 127, 128, 127),
        TestColor::new(127, 127, 127, 128)
    ]);
    let nearest = palette.nearest(RawColor { red: 255, green: 0, blue: 0, alpha: 0 }).unwrap();
    assert_eq!(TestColor::new(128, 127, 127, 127), nearest);
}

#[test]
fn test_euclidean_finds_green() {
    let palette = EuclideanDistancePalette::new(&[
        TestColor::new(128, 127, 127, 127),
        TestColor::new(127, 128, 127, 127),
        TestColor::new(127, 127, 128, 127),
        TestColor::new(127, 127, 127, 128)
    ]);
    let nearest = palette.nearest(RawColor { red: 0, green: 255, blue: 0, alpha: 0 }).unwrap();
    assert_eq!(TestColor::new(127, 128, 127, 127), nearest);
}

#[test]
fn test_euclidean_finds_blue() {
    let palette = EuclideanDistancePalette::new(&[
        TestColor::new(128, 127, 127, 127),
        TestColor::new(127, 128, 127, 127),
        TestColor::new(127, 127, 128, 127),
        TestColor::new(127, 127, 127, 128)
    ]);
    let nearest = palette.nearest(RawColor { red: 0, green: 0, blue: 255, alpha: 0 }).unwrap();
    assert_eq!(TestColor::new(127, 127, 128, 127), nearest);
}

#[test]
fn test_euclidean_finds_alpha() {
    let palette = EuclideanDistancePalette::new(&[
        TestColor::new(128, 127, 127, 127),
        TestColor::new(127, 128, 127, 127),
        TestColor::new(127, 127, 128, 127),
        TestColor::new(127, 127, 127, 128)
    ]);
    let nearest = palette.nearest(RawColor { red: 0, green: 0, blue: 0, alpha: 255 }).unwrap();
    assert_eq!(TestColor::new(127, 127, 127, 128), nearest);
}

#[test]
fn test_euclidean_finds_one_when_equidistant() {
    let palette = EuclideanDistancePalette::new(&[
        TestColor::new(128, 127, 127, 127),
        TestColor::new(127, 128, 127, 127),
        TestColor::new(127, 127, 128, 127),
        TestColor::new(127, 127, 127, 128)
    ]);
    let nearest = palette.nearest(RawColor { red: 255, green: 255, blue: 255, alpha: 255 });
    assert!(nearest.is_some());
}

#[test]
fn test_euclidean_finds_exact_color_among_many() {
    let colors: Vec<TestColor> = (0..=255u8)
        .map(|value| TestColor::new(value, 255 - value, value / 2, 255))
        .collect();
    let palette = EuclideanDistancePalette::new(&colors);
    for color in &colors {
        assert_eq!(Some(*color), palette.nearest(color.value));
    }
}

#[test]
fn test_euclidean_finds_nearest_by_squared_distance() {
    let palette = EuclideanDistancePalette::new(&[
        TestColor::new(0, 0, 0, 255),
        TestColor::new(100, 100, 100, 255),
        TestColor::new(255, 255, 255, 255),
    ]);
    assert_eq!(
        Some(TestColor::new(0, 0, 0, 255)),
        palette.nearest(RawColor { red: 49, green: 49, blue: 49, alpha: 255 })
    );
    assert_eq!(
        Some(TestColor::new(100, 100, 100, 255)),
        palette.nearest(RawColor { red: 51, green: 51, blue: 51, alpha: 255 })
    );
    assert_eq!(
        Some(TestColor::new(255, 255, 255, 255)),
        palette.nearest(RawColor { red: 200, green: 200, blue: 200, alpha: 255 })
    );
}
