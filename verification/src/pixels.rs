//! An RGBA image with 8 bits per channel, stored row-major.
use vstd::prelude::*;

verus! {

/// An RGBA8 image: `width * height` pixels of four bytes each, row by row.
pub struct PixelBuffer {
    width: u32,
    height: u32,
    data: Vec<u8>,
}

/// Index of the first byte of pixel `(x, y)` in an image `w` pixels wide.
pub open spec fn pixel_offset(w: int, x: int, y: int) -> int {
    4 * (y * w + x)
}

proof fn lemma_pixel_in_bounds(w: int, h: int, x: int, y: int)
    requires
        0 <= x < w,
        0 <= y < h,
    ensures
        0 <= y * w + x < w * h,
        0 <= y * w <= y * w + x,
        4 * (y * w + x) + 3 < w * h * 4,
{
    assert(0 <= y * w + x < w * h && 0 <= y * w && 4 * (y * w + x) + 3 < w * h * 4) by (nonlinear_arith)
        requires
            0 <= x < w,
            0 <= y < h,
    ;
}

impl PixelBuffer {
    #[verifier::type_invariant]
    spec fn well_formed(&self) -> bool {
        self.data@.len() == self.width as int * self.height as int * 4
    }

    /// Width in pixels.
    pub closed spec fn spec_width(&self) -> int {
        self.width as int
    }

    /// Height in pixels.
    pub closed spec fn spec_height(&self) -> int {
        self.height as int
    }

    /// The raw RGBA bytes.
    pub closed spec fn bytes(&self) -> Seq<u8> {
        self.data@
    }

    /// An image of the given size with every byte zero (transparent black).
    pub fn new(width: u32, height: u32) -> (img: Self)
        requires
            width as int * height as int * 4 <= usize::MAX,
        ensures
            img.spec_width() == width,
            img.spec_height() == height,
            img.bytes() == Seq::new((width as int * height as int * 4) as nat, |i: int| 0u8),
    {
        let len = (width as usize) * (height as usize) * 4;
        let mut data: Vec<u8> = Vec::new();
        while data.len() < len
            invariant
                data.len() <= len,
                forall|i: int| 0 <= i < data.len() ==> data@[i] == 0u8,
            decreases len - data.len(),
        {
            data.push(0);
        }
        let img = PixelBuffer { width, height, data };
        assert(img.bytes() =~= Seq::new((width as int * height as int * 4) as nat, |i: int| 0u8));
        img
    }

    /// Wraps raw RGBA bytes; `None` when their count does not match the size.
    pub fn from_raw(width: u32, height: u32, data: Vec<u8>) -> (img: Option<Self>)
        ensures
            img.is_some() <==> data@.len() == width as int * height as int * 4,
            img matches Some(i) ==> i.spec_width() == width && i.spec_height() == height && i.bytes()
                == data@,
    {
        let w = width as u64;
        let h = height as u64;
        assert(w as int * h as int <= u64::MAX) by (nonlinear_arith)
            requires
                w <= u32::MAX,
                h <= u32::MAX,
        ;
        let len = data.len() as u64;
        if w * h <= u64::MAX / 4 && len == w * h * 4 {
            Some(PixelBuffer { width, height, data })
        } else {
            proof {
                if data@.len() == width as int * height as int * 4 {
                    assert(w * h <= u64::MAX / 4);
                }
            }
            None
        }
    }

    /// Width in pixels.
    pub fn width(&self) -> (w: u32)
        ensures
            w == self.spec_width(),
    {
        self.width
    }

    /// Height in pixels.
    pub fn height(&self) -> (h: u32)
        ensures
            h == self.spec_height(),
    {
        self.height
    }

    /// The raw RGBA bytes.
    pub fn as_raw(&self) -> (r: &Vec<u8>)
        ensures
            r@ == self.bytes(),
            r@.len() == self.spec_width() * self.spec_height() * 4,
    {
        proof {
            use_type_invariant(self);
        }
        &self.data
    }

    /// The RGBA value of pixel `(x, y)`.
    pub fn get_pixel(&self, x: u32, y: u32) -> (px: (u8, u8, u8, u8))
        requires
            x < self.spec_width(),
            y < self.spec_height(),
        ensures
            ({
                let o = pixel_offset(self.spec_width(), x as int, y as int);
                px == (self.bytes()[o], self.bytes()[o + 1], self.bytes()[o + 2], self.bytes()[o
                    + 3])
            }),
    {
        proof {
            use_type_invariant(self);
            lemma_pixel_in_bounds(self.width as int, self.height as int, x as int, y as int);
            assert(self.data@.len() == self.data.len());
            assert(self.width as int * self.height as int * 4 <= usize::MAX);
        }
        let o = ((y as usize) * (self.width as usize) + (x as usize)) * 4;
        (self.data[o], self.data[o + 1], self.data[o + 2], self.data[o + 3])
    }

    /// Sets pixel `(x, y)` to `px`, leaving every other byte unchanged.
    pub fn put_pixel(&mut self, x: u32, y: u32, px: (u8, u8, u8, u8))
        requires
            x < old(self).spec_width(),
            y < old(self).spec_height(),
        ensures
            final(self).spec_width() == old(self).spec_width(),
            final(self).spec_height() == old(self).spec_height(),
            ({
                let o = pixel_offset(old(self).spec_width(), x as int, y as int);
                final(self).bytes() == old(self).bytes().update(o, px.0).update(o + 1, px.1).update(
                    o + 2,
                    px.2,
                ).update(o + 3, px.3)
            }),
    {
        proof {
            use_type_invariant(&*self);
            lemma_pixel_in_bounds(self.width as int, self.height as int, x as int, y as int);
            assert(self.data@.len() == self.data.len());
            assert(self.width as int * self.height as int * 4 <= usize::MAX);
        }
        let o = ((y as usize) * (self.width as usize) + (x as usize)) * 4;
        let mut taken = PixelBuffer { width: 0, height: 0, data: Vec::new() };
        std::mem::swap(&mut taken, self);
        let PixelBuffer { width, height, mut data } = taken;
        data.set(o, px.0);
        data.set(o + 1, px.1);
        data.set(o + 2, px.2);
        data.set(o + 3, px.3);
        *self = PixelBuffer { width, height, data };
    }
}

} // verus!
