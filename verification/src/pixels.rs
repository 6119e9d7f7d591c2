//! Images, palettes and dense tables of per-pixel values.

use vstd::prelude::*;
use crate::color::{Color, RawColor};

verus! {

/// A source of raw colors, `spec_length()` pixels long and `spec_width()` pixels wide.
///
/// Each executable method returns what the spec function of the same name says;
/// verified code relies on this for every implementation.
pub trait Image {
    spec fn spec_pixel(&self, l: u32, w: u32) -> RawColor;

    spec fn spec_length(&self) -> u32;

    spec fn spec_width(&self) -> u32;

    fn pixel(&self, l: u32, w: u32) -> (color: RawColor)
        requires
            l < self.spec_length(),
            w < self.spec_width(),
        ensures
            color == self.spec_pixel(l, w),
    ;

    fn length(&self) -> (n: u32)
        ensures
            n == self.spec_length(),
    ;

    fn width(&self) -> (n: u32)
        ensures
            n == self.spec_width(),
    ;
}

/// A finite set of colors that maps each raw color to its nearest member, if it has one.
///
/// `nearest` returns what `spec_nearest` says; verified code relies on this for every
/// implementation.
pub trait Palette<C> {
    spec fn spec_nearest(&self, color: RawColor) -> Option<C>;

    fn nearest(&self, color: RawColor) -> (r: Option<C>)
        ensures
            r == self.spec_nearest(color),
    ;
}

/// The value at (l, w) in a table stored row by row, each row `length` long.
pub open spec fn cell<T>(values: Seq<T>, length: int, l: int, w: int) -> T {
    values[w * length + l]
}

/// A dense table with one value for each pixel, stored row by row.
pub struct Pixels<T> {
    values_by_row: Vec<T>,
    length: usize,
}

impl<T: Copy> Pixels<T> {
    /// The number of pixels in a row.
    pub closed spec fn spec_length(&self) -> nat {
        self.length as nat
    }

    /// The number of rows.
    pub closed spec fn spec_width(&self) -> nat {
        if self.length == 0 {
            0
        } else {
            self.values_by_row.len() as nat / self.length as nat
        }
    }

    /// The value at (l, w).
    pub closed spec fn spec_value(&self, l: int, w: int) -> T {
        cell(self.values_by_row@, self.length as int, l, w)
    }

    /// The values of the table, row by row.
    pub closed spec fn spec_values(&self) -> Seq<T> {
        self.values_by_row@
    }

    /// The table holds exactly `spec_length() * spec_width()` values.
    pub closed spec fn wf(&self) -> bool {
        self.values_by_row.len() == self.spec_length() * self.spec_width()
    }

    /// Builds the table of `length` by `width` values from what `f` returns for each
    /// pixel, asked once per pixel, row by row.
    pub fn from_fn<F: FnMut(usize, usize) -> T>(mut f: F, length: usize, width: usize) -> (r: Self)
        requires
            length * width <= usize::MAX,
            forall|l: usize, w: usize| l < length && w < width ==> call_requires(f, (l, w)),
        ensures
            r.wf(),
            r.spec_length() == length,
            length > 0 ==> r.spec_width() == width,
            forall|l: usize, w: usize|
                l < length && w < width ==> call_ensures(f, (l, w), #[trigger] r.spec_value(l as int, w as int)),
    {
        let ghost f0 = f;
        let mut values_by_row: Vec<T> = Vec::new();
        let mut w: usize = 0;
        while w < width
            invariant
                w <= width,
                f == f0,
                length * width <= usize::MAX,
                values_by_row.len() == w * length,
                forall|l: usize, w: usize| l < length && w < width ==> call_requires(f, (l, w)),
                forall|l0: usize, w0: usize|
                    l0 < length && w0 < w ==> call_ensures(
                        f,
                        (l0, w0),
                        #[trigger] cell(values_by_row@, length as int, l0 as int, w0 as int),
                    ),
            decreases width - w,
        {
            let mut l: usize = 0;
            while l < length
                invariant
                    l <= length,
                    f == f0,
                    w < width,
                    length * width <= usize::MAX,
                    values_by_row.len() == w * length + l,
                    forall|l: usize, w: usize| l < length && w < width ==> call_requires(f, (l, w)),
                    forall|l0: usize, w0: usize|
                        (l0 < length && w0 < w) || (w0 == w && l0 < l) ==> call_ensures(
                            f,
                            (l0, w0),
                            #[trigger] cell(values_by_row@, length as int, l0 as int, w0 as int),
                        ),
                decreases length - l,
            {
                let ghost before = values_by_row@;
                let value = f(l, w);
                values_by_row.push(value);
                proof {
                    assert forall|l0: usize, w0: usize|
                        (l0 < length && w0 < w) || (w0 == w && l0 < l + 1) implies call_ensures(
                        f,
                        (l0, w0),
                        #[trigger] cell(values_by_row@, length as int, l0 as int, w0 as int),
                    ) by {
                        let i = w0 * length + l0;
                        if w0 < w {
                            assert(i < w * length) by (nonlinear_arith)
                                requires
                                    i == w0 * length + l0,
                                    w0 < w,
                                    l0 < length,
                            ;
                            assert(values_by_row@[i] == before[i]);
                            assert(cell(before, length as int, l0 as int, w0 as int) == before[i]);
                        } else if l0 < l {
                            assert(values_by_row@[i] == before[i]);
                            assert(cell(before, length as int, l0 as int, w0 as int) == before[i]);
                        } else {
                            assert(i == before.len());
                            assert(values_by_row@[i] == value);
                        }
                    }
                }
                l += 1;
            }
            proof {
                assert((w + 1) * length == w * length + length) by (nonlinear_arith);
            }
            w += 1;
        }
        let ghost values = values_by_row@;
        let r = Pixels { values_by_row, length };
        proof {
            if length > 0 {
                assert((width * length) / (length as int) == width) by (nonlinear_arith)
                    requires
                        length > 0,
                ;
                assert(width * length == length * width) by (nonlinear_arith);
            }
            assert forall|l: usize, w: usize| l < length && w < width implies call_ensures(
                f,
                (l, w),
                #[trigger] r.spec_value(l as int, w as int),
            ) by {
                assert(r.spec_value(l as int, w as int) == cell(
                    values,
                    length as int,
                    l as int,
                    w as int,
                ));
            }
        }
        r
    }

    /// The value at (l, w).
    pub fn value(&self, l: usize, w: usize) -> (r: T)
        requires
            self.wf(),
            l < self.spec_length(),
            w < self.spec_width(),
        ensures
            r == self.spec_value(l as int, w as int),
    {
        proof {
            assert(w * self.length + l < self.length * (self.values_by_row.len() / self.length))
                by (nonlinear_arith)
                requires
                    l < self.length,
                    w < self.values_by_row.len() / self.length,
            ;
        }
        self.values_by_row[w * self.length + l]
    }
}

impl<T: Copy> Pixels<T> {
    /// The table of `length` by `width` values stored row by row in `values`.
    pub fn from_rows(values: Vec<T>, length: usize, width: usize) -> (r: Self)
        requires
            values.len() == length * width,
        ensures
            r.wf(),
            r.spec_length() == length,
            length > 0 ==> r.spec_width() == width,
            forall|l: int, w: int| #[trigger] r.spec_value(l, w) == cell(values@, length as int, l, w),
            r.spec_values() == values@,
    {
        proof {
            if length > 0 {
                assert((length * width) / (length as int) == width) by (nonlinear_arith)
                    requires
                        length > 0,
                ;
            }
        }
        Pixels { values_by_row: values, length }
    }

    /// The number of pixels in a row.
    pub fn length(&self) -> (r: usize)
        ensures
            r == self.spec_length(),
    {
        self.length
    }
}

/// Whether `color` is what the palette makes of `raw`: the nearest color of the palette,
/// or a default color where the palette has none.
pub open spec fn quantizes<C: Color, P: Palette<C>>(palette: &P, raw: RawColor, color: C) -> bool {
    match palette.spec_nearest(raw) {
        Some(nearest) => color == nearest,
        None => call_ensures(C::default, (), color),
    }
}

impl Pixels<RawColor> {
    /// The table of the colors that the palette makes of the raw colors, the palette
    /// asked once for each pixel.
    pub fn with_palette<C: Color, P: Palette<C>>(self, palette: &P) -> (r: Pixels<C>)
        requires
            self.wf(),
        ensures
            r.wf(),
            r.spec_length() == self.spec_length(),
            r.spec_width() == self.spec_width(),
            forall|l: int, w: int|
                0 <= l < self.spec_length() && 0 <= w < self.spec_width() ==> quantizes(
                    palette,
                    self.spec_value(l, w),
                    #[trigger] r.spec_value(l, w),
                ),
    {
        let mut new_colors: Vec<C> = Vec::new();
        let mut i: usize = 0;
        while i < self.values_by_row.len()
            invariant
                i <= self.values_by_row.len(),
                new_colors.len() == i,
                forall|k: int|
                    0 <= k < i ==> quantizes(palette, self.values_by_row@[k], #[trigger] new_colors@[k]),
            decreases self.values_by_row.len() - i,
        {
            let color = match palette.nearest(self.values_by_row[i]) {
                Some(nearest) => nearest,
                None => C::default(),
            };
            new_colors.push(color);
            i += 1;
        }
        let r = Pixels { values_by_row: new_colors, length: self.length };
        proof {
            assert forall|l: int, w: int|
                0 <= l < self.spec_length() && 0 <= w < self.spec_width() implies quantizes(
                palette,
                self.spec_value(l, w),
                #[trigger] r.spec_value(l, w),
            ) by {
                assert(0 <= w * self.length + l < self.length * (self.values_by_row.len()
                    / self.length)) by (nonlinear_arith)
                    requires
                        0 <= l < self.length,
                        0 <= w < self.values_by_row.len() / self.length,
                ;
            }
        }
        r
    }
}

impl Pixels<u32> {
    /// The largest value of the table, or `None` if the table is empty.
    pub fn max(&self) -> (r: Option<u32>)
        requires
            self.wf(),
        ensures
            match r {
                Some(max) => {
                    &&& forall|l: int, w: int|
                        0 <= l < self.spec_length() && 0 <= w < self.spec_width()
                            ==> #[trigger] self.spec_value(l, w) <= max
                    &&& exists|l: int, w: int|
                        0 <= l < self.spec_length() && 0 <= w < self.spec_width()
                            && #[trigger] self.spec_value(l, w) == max
                },
                None => self.spec_length() == 0 || self.spec_width() == 0,
            },
    {
        if self.values_by_row.len() == 0 {
            proof {
                if self.length > 0 {
                    assert(self.spec_width() == 0);
                }
            }
            return None;
        }
        let mut max: u32 = self.values_by_row[0];
        let mut i: usize = 1;
        let ghost mut at: int = 0;
        while i < self.values_by_row.len()
            invariant
                1 <= i <= self.values_by_row.len(),
                0 <= at < i,
                self.values_by_row@[at] == max,
                forall|k: int| 0 <= k < i ==> self.values_by_row@[k] <= max,
            decreases self.values_by_row.len() - i,
        {
            if self.values_by_row[i] > max {
                max = self.values_by_row[i];
                proof {
                    at = i as int;
                }
            }
            i += 1;
        }
        proof {
            let length = self.length as int;
            assert(length > 0) by {
                if length == 0 {
                    assert(self.spec_length() * self.spec_width() == 0) by (nonlinear_arith)
                        requires
                            self.spec_length() == 0,
                    ;
                }
            }
            let width = self.spec_width() as int;
            assert forall|l: int, w: int|
                0 <= l < self.spec_length() && 0 <= w < self.spec_width()
                    implies #[trigger] self.spec_value(l, w) <= max by {
                assert(0 <= w * length + l < length * width) by (nonlinear_arith)
                    requires
                        0 <= l < length,
                        0 <= w < width,
                ;
            }
            vstd::arithmetic::div_mod::lemma_fundamental_div_mod(at, length);
            let w0 = at / length;
            let l0 = at % length;
            assert(w0 * length + l0 == at) by (nonlinear_arith)
                requires
                    at == length * w0 + l0,
            ;
            assert(0 <= w0 < width) by (nonlinear_arith)
                requires
                    at == length * w0 + l0,
                    0 <= l0 < length,
                    0 <= at < length * width,
                    length > 0,
            ;
            assert(self.spec_value(l0, w0) == max);
        }
        Some(max)
    }
}

/// An image that holds its pixels in a table.
pub struct PixelImage {
    pixels: Pixels<RawColor>,
    length: u32,
    width: u32,
}

impl PixelImage {
    #[verifier::type_invariant]
    closed spec fn inv(self) -> bool {
        &&& self.pixels.wf()
        &&& self.pixels.spec_length() == self.length
        &&& self.length > 0 ==> self.pixels.spec_width() == self.width
    }

    /// The pixels of the image, row by row.
    pub closed spec fn spec_pixels(&self) -> Seq<RawColor> {
        self.pixels.spec_values()
    }

    /// The image of `length` by `width` pixels that are stored row by row in `values`;
    /// `None` if `values` does not hold `length * width` pixels.
    pub fn from_rows(values: Vec<RawColor>, length: u32, width: u32) -> (r: Option<Self>)
        ensures
            r is Some <==> values@.len() == length * width,
            r matches Some(image) ==> image.spec_length() == length && image.spec_width() == width
                && image.spec_pixels() == values@,
    {
        assert(length * width <= u32::MAX * u32::MAX) by (nonlinear_arith)
            requires
                length <= u32::MAX,
                width <= u32::MAX,
        ;
        let count: u64 = length as u64 * width as u64;
        if values.len() as u64 != count {
            return None;
        }
        let pixels = Pixels::from_rows(values, length as usize, width as usize);
        Some(PixelImage { pixels, length, width })
    }
}

impl Image for PixelImage {
    closed spec fn spec_pixel(&self, l: u32, w: u32) -> RawColor {
        self.pixels.spec_value(l as int, w as int)
    }

    closed spec fn spec_length(&self) -> u32 {
        self.length
    }

    closed spec fn spec_width(&self) -> u32 {
        self.width
    }

    fn pixel(&self, l: u32, w: u32) -> (color: RawColor) {
        proof {
            use_type_invariant(self);
        }
        self.pixels.value(l as usize, w as usize)
    }

    fn length(&self) -> (n: u32) {
        self.length
    }

    fn width(&self) -> (n: u32) {
        self.width
    }
}

} // verus!
