//! Plain color samples and the decoded pixel grid the extractor reads.

use vstd::prelude::*;

verus! {

/// One RGB color sample. The source images carry an alpha channel as well,
/// but classification ignores it and output treats every color as opaque,
/// so only the three color channels are modeled.
#[derive(Clone, Copy, Debug, PartialEq, Eq, Structural)]
pub struct Color {
    pub r: u8,
    pub g: u8,
    pub b: u8,
}

/// A decoded raster image: `width * height` color samples in row-major order
/// (the sample at `(x, y)` sits at index `y * width + x`).
#[derive(Debug)]
pub struct PixelGrid {
    pub width: u32,
    pub height: u32,
    pub pixels: Vec<Color>,
}

impl PixelGrid {
    /// Well-formed when the buffer holds exactly one sample per coordinate.
    pub open spec fn wf(self) -> bool {
        self.pixels@.len() == self.width as int * self.height as int
    }

    /// The color stored at coordinate `(x, y)`.
    pub open spec fn spec_pixel(self, x: int, y: int) -> Color {
        self.pixels@[y * self.width as int + x]
    }

    /// Builds a grid from its dimensions and row-major samples; rejects a
    /// buffer whose length does not match the dimensions.
    pub fn new(width: u32, height: u32, pixels: Vec<Color>) -> (r: Option<PixelGrid>)
        ensures
            r is Some <==> pixels@.len() == width as int * height as int,
            r matches Some(g) ==> g.wf() && g.width == width && g.height == height && g.pixels@
                == pixels@,
    {
        proof {
            assert((width as int) * (height as int) <= 0xffffffff * 0xffffffff)
                by (nonlinear_arith)
                requires
                    0 <= width as int <= 0xffffffff,
                    0 <= height as int <= 0xffffffff,
            ;
        }
        if pixels.len() as u64 == (width as u64) * (height as u64) {
            Some(PixelGrid { width, height, pixels })
        } else {
            None
        }
    }

    /// Indexed pixel lookup.
    pub fn get_pixel(&self, x: u32, y: u32) -> (c: Color)
        requires
            self.wf(),
            x < self.width,
            y < self.height,
        ensures
            c == self.spec_pixel(x as int, y as int),
    {
        proof {
            vstd::std_specs::vec::axiom_spec_len(&self.pixels);
            assert((y as int) * (self.width as int) + (x as int) < (self.width as int) * (
            self.height as int)) by (nonlinear_arith)
                requires
                    (x as int) < (self.width as int),
                    (y as int) < (self.height as int),
                    0 <= x as int,
                    0 <= y as int,
            ;
        }
        self.pixels[(y as usize) * (self.width as usize) + (x as usize)]
    }
}

} // verus!
