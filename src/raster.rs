use vstd::prelude::*;

verus! {

/// One RGBA pixel, eight bits per channel.
#[derive(Clone, Copy, Debug, PartialEq, Eq, Structural)]
pub struct Pixel {
    pub r: u8,
    pub g: u8,
    pub b: u8,
    pub a: u8,
}

/// The fully transparent pixel `(0, 0, 0, 0)`.
pub open spec fn transparent_spec() -> Pixel {
    Pixel { r: 0, g: 0, b: 0, a: 0 }
}

impl Pixel {
    pub fn new(r: u8, g: u8, b: u8, a: u8) -> (p: Pixel)
        ensures
            p == (Pixel { r, g, b, a }),
    {
        Pixel { r, g, b, a }
    }

    pub fn transparent() -> (p: Pixel)
        ensures
            p == transparent_spec(),
    {
        Pixel { r: 0, g: 0, b: 0, a: 0 }
    }
}

/// A `width` x `height` grid of pixels, stored row by row.
#[derive(Debug)]
pub struct Raster {
    pub width: u32,
    pub height: u32,
    pub pixels: Vec<Pixel>,
}

/// Index of pixel `(x, y)` in a row-major buffer of rows `w` pixels wide.
pub open spec fn row_major(x: nat, y: nat, w: nat) -> nat {
    y * w + x
}

/// Facts about the row-major index of a pixel inside a `w` x `h` grid.
pub proof fn lemma_row_major(x: nat, y: nat, w: nat, h: nat)
    requires
        x < w,
        y < h,
    ensures
        row_major(x, y, w) < w * h,
        row_major(x, y, w) < h * w,
        row_major(x, y, w) % w == x,
        row_major(x, y, w) / w == y,
{
    assert(y * w + x < w * h) by (nonlinear_arith)
        requires
            x < w,
            y < h,
    ;
    assert(w * h == h * w) by (nonlinear_arith);
    vstd::arithmetic::div_mod::lemma_fundamental_div_mod_converse(
        (y * w + x) as int,
        w as int,
        y as int,
        x as int,
    );
}

impl Raster {
    /// The buffer holds exactly one pixel per position.
    pub open spec fn wf(&self) -> bool {
        self.pixels@.len() == self.width * self.height
    }

    /// The pixel at column `x` and row `y`.
    pub open spec fn pixel_at(&self, x: nat, y: nat) -> Pixel {
        self.pixels@[row_major(x, y, self.width as nat) as int]
    }

    pub open spec fn same_size(&self, other: &Raster) -> bool {
        self.width == other.width && self.height == other.height
    }

    /// A raster from its size and its pixels row by row; `None` when the
    /// number of pixels is not `width * height`.
    pub fn new(width: u32, height: u32, pixels: Vec<Pixel>) -> (r: Option<Raster>)
        ensures
            r.is_some() <==> pixels@.len() == width * height,
            r matches Some(ras) ==> ras.width == width && ras.height == height && ras.pixels@
                == pixels@ && ras.wf(),
    {
        let len = pixels.len();
        match (width as usize).checked_mul(height as usize) {
            Some(n) => {
                if len == n {
                    Some(Raster { width, height, pixels })
                } else {
                    None
                }
            },
            None => None,
        }
    }

    /// The size as `(width, height)`.
    pub fn dimensions(&self) -> (d: (u32, u32))
        ensures
            d == (self.width, self.height),
    {
        (self.width, self.height)
    }

    /// The pixel at column `x` and row `y`.
    pub fn get_pixel(&self, x: u32, y: u32) -> (p: Pixel)
        requires
            self.wf(),
            x < self.width,
            y < self.height,
        ensures
            p == self.pixel_at(x as nat, y as nat),
    {
        let len = self.pixels.len();
        proof {
            lemma_row_major(x as nat, y as nat, self.width as nat, self.height as nat);
            assert(y * self.width <= y * self.width + x);
        }
        self.pixels[y as usize * self.width as usize + x as usize]
    }
}

} // verus!
