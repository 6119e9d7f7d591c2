//! Colors: raw four-channel colors and the marker trait for quantized colors.

use vstd::prelude::*;

verus! {

/// A color of four channels.
#[derive(Copy, Clone, Eq, PartialEq, Ord, PartialOrd, Hash, Debug, Default)]
pub struct Srgba<T> {
    pub red: T,
    pub green: T,
    pub blue: T,
    pub alpha: T,
}

/// A raw color as read from an image: four channels of eight bits.
pub type RawColor = Srgba<u8>;

/// A quantized color: copyable, comparable, with a default, convertible to a raw color.
pub trait Color: Copy + Default + Eq + Into<RawColor> {}

impl<T: Copy + Default + Eq + Into<RawColor>> Color for T {}

} // verus!
