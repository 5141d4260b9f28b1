//! Decoded pixel grids, as the mapping and the render-back read and write them.

use vstd::prelude::*;

verus! {

/// One pixel's red, green and blue channels.
#[derive(Debug, Clone, Copy, PartialEq, Eq, Structural)]
pub struct Rgb {
    pub r: u8,
    pub g: u8,
    pub b: u8,
}

/// A decoded image: `height` rows of `width` pixels, stored row after row.
pub struct Image {
    pub width: u32,
    pub height: u32,
    pub pixels: Vec<Rgb>,
}

impl Image {
    /// An image with at least one pixel, whose buffer holds exactly its pixels.
    pub open spec fn wf(&self) -> bool {
        &&& self.width > 0
        &&& self.height > 0
        &&& self.pixels@.len() == self.width as int * self.height as int
    }

    /// The pixel in column `x` of row `y`.
    pub open spec fn pixel(&self, x: int, y: int) -> Rgb {
        self.pixels@[y * self.width as int + x]
    }

    /// An image from its dimensions and pixels; refused unless it has at least
    /// one pixel and the buffer holds exactly `width * height` of them.
    pub fn from_pixels(width: u32, height: u32, pixels: Vec<Rgb>) -> (r: Option<Image>)
        ensures
            (width > 0 && height > 0 && pixels@.len() == width as int * height as int) ==> (
            r matches Some(img) && img.wf() && img.width == width && img.height == height
                && img.pixels@ == pixels@),
            !(width > 0 && height > 0 && pixels@.len() == width as int * height as int) ==> r
                is None,
    {
        if width == 0 || height == 0 {
            return None;
        }
        assert(width as int * height as int <= u64::MAX) by (nonlinear_arith)
            requires
                width <= u32::MAX,
                height <= u32::MAX,
        ;
        let n = width as u64 * height as u64;
        if pixels.len() as u64 != n {
            return None;
        }
        Some(Image { width, height, pixels })
    }

    /// An image of one colour.
    pub fn solid(width: u32, height: u32, color: Rgb) -> (r: Image)
        requires
            width > 0,
            height > 0,
            width as int * height as int <= usize::MAX,
        ensures
            r.wf(),
            r.width == width,
            r.height == height,
            forall|i: int| 0 <= i < r.pixels@.len() ==> r.pixels@[i] == color,
    {
        assert(width as int * height as int <= u64::MAX) by (nonlinear_arith)
            requires
                width <= u32::MAX,
                height <= u32::MAX,
        ;
        let n = (width as u64 * height as u64) as usize;
        let mut pixels: Vec<Rgb> = Vec::new();
        let mut i: usize = 0;
        while i < n
            invariant
                i <= n,
                pixels@.len() == i,
                forall|k: int| 0 <= k < i ==> pixels@[k] == color,
            decreases n - i,
        {
            pixels.push(color);
            i = i + 1;
        }
        Image { width, height, pixels }
    }

    /// The pixel in column `x` of row `y`.
    pub fn get_pixel(&self, x: u32, y: u32) -> (p: Rgb)
        requires
            self.wf(),
            x < self.width,
            y < self.height,
        ensures
            p == self.pixel(x as int, y as int),
    {
        proof {
            lemma_pixel_index(self.width as int, self.height as int, x as int, y as int);
        }
        let _len = self.pixels.len();
        let i = y as usize * self.width as usize + x as usize;
        self.pixels[i]
    }
}

/// A pixel's place in the buffer lies inside it.
pub proof fn lemma_pixel_index(w: int, h: int, x: int, y: int)
    requires
        0 <= x < w,
        0 <= y < h,
    ensures
        0 <= y * w,
        0 <= y * w + x < w * h,
{
    assert(y * w + x < w * h) by (nonlinear_arith)
        requires
            0 <= x < w,
            0 <= y < h,
    ;
    assert(0 <= y * w) by (nonlinear_arith)
        requires
            0 <= y,
            0 <= x < w,
    ;
}

} // verus!
