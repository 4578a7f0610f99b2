use vstd::prelude::*;
use vstd::pervasive::VecAdditionalExecFns;
use crate::errors::FixError;

verus! {

/// A decoded RGBA image: `width * height` pixels in row-major order, four
/// bytes per pixel in the channel order red, green, blue, alpha.
#[derive(Debug)]
pub struct Raster {
    pub width: usize,
    pub height: usize,
    pub data: Vec<u8>,
}

impl Raster {
    /// Shape invariant: positive dimensions and a dense buffer of exactly
    /// four bytes per pixel.
    pub open spec fn wf(self) -> bool {
        &&& 0 < self.width
        &&& 0 < self.height
        &&& self.data@.len() == 4 * self.width * self.height
    }

    pub open spec fn in_bounds(self, x: int, y: int) -> bool {
        0 <= x < self.width && 0 <= y < self.height
    }

    /// Byte offset of pixel `(x, y)` in the buffer.
    pub open spec fn pix(self, x: int, y: int) -> int {
        4 * (y * self.width + x)
    }

    /// Channel `c` of pixel `(x, y)`: 0 red, 1 green, 2 blue, 3 alpha.
    pub open spec fn chan(self, x: int, y: int, c: int) -> u8 {
        self.data@[self.pix(x, y) + c]
    }

    pub open spec fn alpha(self, x: int, y: int) -> u8 {
        self.chan(x, y, 3)
    }

    pub open spec fn rgb(self, x: int, y: int) -> (u8, u8, u8) {
        (self.chan(x, y, 0), self.chan(x, y, 1), self.chan(x, y, 2))
    }

    pub open spec fn same_dims(self, other: Raster) -> bool {
        self.width == other.width && self.height == other.height
    }

    /// All four channels of pixel `(x, y)` agree between `self` and `other`.
    pub open spec fn pixel_unchanged(self, other: Raster, x: int, y: int) -> bool {
        self.rgb(x, y) == other.rgb(x, y) && self.alpha(x, y) == other.alpha(x, y)
    }

    /// The byte range of an in-bounds pixel lies inside the buffer.
    pub proof fn lemma_pix_bounds(self, x: int, y: int)
        requires
            self.wf(),
            self.in_bounds(x, y),
        ensures
            0 <= y * self.width,
            0 <= self.pix(x, y),
            self.pix(x, y) + 3 < self.data@.len(),
    {
        assert(0 <= y * self.width && 0 <= 4 * (y * self.width + x) && 4 * (y * self.width + x) + 3
            < 4 * self.width * self.height) by (nonlinear_arith)
            requires
                0 <= x < self.width,
                0 <= y < self.height,
        ;
    }

    /// Distinct in-bounds pixels occupy disjoint byte ranges.
    pub proof fn lemma_pix_disjoint(self, x1: int, y1: int, x2: int, y2: int)
        requires
            self.wf(),
            self.in_bounds(x1, y1),
            self.in_bounds(x2, y2),
            (x1, y1) != (x2, y2),
        ensures
            self.pix(x1, y1) + 3 < self.pix(x2, y2) || self.pix(x2, y2) + 3 < self.pix(x1, y1),
    {
        assert(y1 * self.width + x1 != y2 * self.width + x2) by (nonlinear_arith)
            requires
                0 <= x1 < self.width,
                0 <= x2 < self.width,
                0 <= y1,
                0 <= y2,
                x1 != x2 || y1 != y2,
        ;
    }

    pub fn get_chan(&self, x: usize, y: usize, c: usize) -> (b: u8)
        requires
            self.wf(),
            self.in_bounds(x as int, y as int),
            c < 4,
        ensures
            b == self.chan(x as int, y as int, c as int),
    {
        proof {
            vstd::std_specs::vec::axiom_spec_len(&self.data);
            self.lemma_pix_bounds(x as int, y as int);
        }
        self.data[4 * (y * self.width + x) + c]
    }

    pub fn set_chan(&mut self, x: usize, y: usize, c: usize, v: u8)
        requires
            old(self).wf(),
            old(self).in_bounds(x as int, y as int),
            c < 4,
        ensures
            final(self).width == old(self).width,
            final(self).height == old(self).height,
            final(self).wf(),
            final(self).data@ == old(self).data@.update(old(self).pix(x as int, y as int) + c, v),
    {
        proof {
            vstd::std_specs::vec::axiom_spec_len(&self.data);
            self.lemma_pix_bounds(x as int, y as int);
        }
        let i = 4 * (y * self.width + x) + c;
        self.data.set(i, v);
    }

    /// Build a raster after checking the decode collaborator's contract:
    /// positive dimensions and a buffer of exactly `width * height * 4`
    /// bytes.  Anything else is a format error.
    pub fn try_new(width: usize, height: usize, data: Vec<u8>) -> (res: Result<Raster, FixError>)
        ensures
            match res {
                Ok(r) => {
                    &&& r.wf()
                    &&& r.width == width
                    &&& r.height == height
                    &&& r.data@ == data@
                    &&& data@.len() == 4 * width * height
                },
                Err(e) => {
                    &&& e == FixError::FormatError
                    &&& !(0 < width && 0 < height && data@.len() == 4 * width * height)
                },
            },
    {
        if width == 0 || height == 0 {
            return Err(FixError::FormatError);
        }
        let len = data.len();
        match width.checked_mul(height) {
            Some(pixels) => match pixels.checked_mul(4) {
                Some(expected) => {
                    proof {
                        assert(expected == 4 * width * height) by (nonlinear_arith)
                            requires
                                expected == pixels * 4,
                                pixels == width * height,
                        ;
                    }
                    if len == expected {
                        Ok(Raster { width, height, data })
                    } else {
                        Err(FixError::FormatError)
                    }
                },
                None => {
                    proof {
                        assert(4 * width * height > usize::MAX) by (nonlinear_arith)
                            requires
                                pixels == width * height,
                                pixels * 4 > usize::MAX,
                        ;
                    }
                    Err(FixError::FormatError)
                },
            },
            None => {
                proof {
                    assert(4 * width * height > usize::MAX) by (nonlinear_arith)
                        requires
                            0 < width,
                            0 < height,
                            width * height > usize::MAX,
                    ;
                }
                Err(FixError::FormatError)
            },
        }
    }
}

/// Two well-formed rasters of the same dimensions that agree on every
/// channel of every pixel have identical buffers.
pub proof fn lemma_data_from_pixels(a: Raster, b: Raster)
    requires
        a.wf(),
        b.wf(),
        a.width == b.width,
        a.height == b.height,
        forall|x: int, y: int| a.in_bounds(x, y) ==> #[trigger] a.rgb(x, y) == b.rgb(x, y),
        forall|x: int, y: int| a.in_bounds(x, y) ==> #[trigger] a.alpha(x, y) == b.alpha(x, y),
    ensures
        a.data@ == b.data@,
{
    let w = a.width as int;
    let h = a.height as int;
    assert forall|i: int| 0 <= i < a.data@.len() implies a.data@[i] == b.data@[i] by {
        vstd::arithmetic::div_mod::lemma_fundamental_div_mod(i, 4);
        vstd::arithmetic::div_mod::lemma_mod_bound(i, 4);
        let p = i / 4;
        let c = i % 4;
        vstd::arithmetic::div_mod::lemma_fundamental_div_mod(p, w);
        vstd::arithmetic::div_mod::lemma_mod_bound(p, w);
        let x = p % w;
        let y = p / w;
        assert(0 <= x < w && 0 <= y < h && y * w + x == p) by (nonlinear_arith)
            requires
                0 < w,
                0 < h,
                0 <= p,
                4 * p + c == i,
                0 <= c < 4,
                i < 4 * w * h,
                p == w * (p / w) + p % w,
                x == p % w,
                y == p / w,
                0 <= x < w,
        ;
        assert(a.in_bounds(x, y));
        assert(a.pix(x, y) + c == i);
        if c == 3 {
            assert(a.alpha(x, y) == b.alpha(x, y));
        } else {
            assert(a.rgb(x, y) == b.rgb(x, y));
        }
    }
    assert(a.data@ =~= b.data@);
}

} // verus!
