//! A read-only view of a 4-byte-per-pixel buffer whose rows may be padded.
use crate::error::ColorError;
use vstd::prelude::*;

verus! {

/// The color read from the four bytes R, G, B, A of one pixel.
pub open spec fn bytes_color(b0: u8, b1: u8, b2: u8, b3: u8) -> u32 {
    (b0 + 256 * b1 + 65536 * b2 + 16777216 * b3) as u32
}

/// `width` by `height` pixels, row `y` starting at byte `y * stride` of `data`.
pub struct PixelBuffer {
    width: u32,
    height: u32,
    stride: u32,
    data: Vec<u8>,
}

/// Whether a geometry fits a byte region of length `len`: at least one pixel,
/// rows of at least `4 * width` bytes, and `height` whole rows.
pub open spec fn geometry_fits(width: u32, height: u32, stride: u32, len: nat) -> bool {
    &&& width > 0
    &&& height > 0
    &&& stride >= 4 * width
    &&& stride * height <= len
}

impl PixelBuffer {
    pub closed spec fn spec_width(&self) -> u32 {
        self.width
    }

    pub closed spec fn spec_height(&self) -> u32 {
        self.height
    }

    pub closed spec fn spec_stride(&self) -> u32 {
        self.stride
    }

    pub closed spec fn spec_data(&self) -> Seq<u8> {
        self.data@
    }

    /// Every value of the type satisfies this: it is the type's invariant.
    #[verifier::type_invariant]
    pub open spec fn wf(&self) -> bool {
        geometry_fits(self.spec_width(), self.spec_height(), self.spec_stride(), self.spec_data().len())
    }

    /// Number of pixels.
    pub open spec fn area(&self) -> nat {
        (self.spec_width() * self.spec_height()) as nat
    }

    /// The color of pixel (`x`, `y`).
    pub open spec fn color_at_spec(&self, x: int, y: int) -> u32 {
        let o = y * self.spec_stride() + 4 * x;
        bytes_color(
            self.spec_data()[o],
            self.spec_data()[o + 1],
            self.spec_data()[o + 2],
            self.spec_data()[o + 3],
        )
    }

    /// The pixels' colors in row-major order.
    pub open spec fn pixels(&self) -> Seq<u32> {
        Seq::new(self.area(), |i: int| self.color_at_spec(i % self.spec_width() as int, i / self.spec_width() as int))
    }

    /// A view of `data` as `width` by `height` pixels with rows `stride` bytes apart.
    pub fn new(width: u32, height: u32, stride: u32, data: Vec<u8>) -> (r: Result<PixelBuffer, ColorError>)
        ensures
            geometry_fits(width, height, stride, data@.len()) <==> r is Ok,
            r is Err ==> r == Err::<PixelBuffer, ColorError>(ColorError::UnreadablePixelSource),
            r matches Ok(b) ==> {
                &&& b.wf()
                &&& b.spec_width() == width
                &&& b.spec_height() == height
                &&& b.spec_stride() == stride
                &&& b.spec_data() == data@
            },
    {
        proof {
            assert((stride as u64) * (height as u64) <= 0xFFFF_FFFF * 0xFFFF_FFFF) by (nonlinear_arith)
                requires
                    stride <= 0xFFFF_FFFF,
                    height <= 0xFFFF_FFFF,
            ;
        }
        if width == 0 || height == 0 || (stride as u64) < 4 * (width as u64)
            || (stride as u64) * (height as u64) > data.len() as u64 {
            return Err(ColorError::UnreadablePixelSource);
        }
        Ok(PixelBuffer { width, height, stride, data })
    }

    pub fn width(&self) -> (r: u32)
        ensures
            r == self.spec_width(),
    {
        self.width
    }

    pub fn height(&self) -> (r: u32)
        ensures
            r == self.spec_height(),
    {
        self.height
    }

    pub fn stride(&self) -> (r: u32)
        ensures
            r == self.spec_stride(),
    {
        self.stride
    }

    /// The color of pixel (`x`, `y`).
    pub fn color_at(&self, x: u32, y: u32) -> (c: u32)
        requires
            x < self.spec_width(),
            y < self.spec_height(),
        ensures
            c == self.color_at_spec(x as int, y as int),
    {
        let n: usize = self.data.len();
        proof {
            use_type_invariant(self);
            lemma_pixel_in_bounds(self.width as int, self.height as int, self.stride as int, x as int, y as int);
            assert(self.stride * self.height <= self.data@.len());
        }
        let o: usize = (y as usize) * (self.stride as usize) + 4 * (x as usize);
        let b0 = self.data[o];
        let b1 = self.data[o + 1];
        let b2 = self.data[o + 2];
        let b3 = self.data[o + 3];
        (b0 as u32) + 256 * (b1 as u32) + 65536 * (b2 as u32) + 16777216 * (b3 as u32)
    }
}

proof fn lemma_pixel_in_bounds(w: int, h: int, s: int, x: int, y: int)
    requires
        0 <= x < w,
        0 <= y < h,
        s >= 4 * w,
    ensures
        0 <= y * s,
        y * s + 4 * x + 3 < s * h,
{
    assert(0 <= y * s) by (nonlinear_arith)
        requires
            0 <= y,
            0 <= s,
    ;
    assert((y + 1) * s <= h * s) by (nonlinear_arith)
        requires
            y + 1 <= h,
            0 <= s,
    ;
    assert((y + 1) * s == y * s + s) by (nonlinear_arith);
    assert(s * h == h * s) by (nonlinear_arith);
}

} // verus!
