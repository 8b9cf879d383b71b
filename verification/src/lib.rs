//! An in-memory RGBA raster image-processing engine.
//!
//! The engine works on a packed 8-bit-per-channel RGBA buffer (row-major,
//! channel order R, G, B, A, no padding) together with a (width, height)
//! pair. It offers per-pixel color effects, separable Gaussian convolution
//! (blur and unsharp-mask sharpening), Sobel edge detection, and geometric
//! remapping (resize, rotate, flips).
//!
//! All sample arithmetic is exact fixed-point integer arithmetic: the
//! classic fractional weights (luminosity 0.299/0.587/0.114, the sepia
//! matrix, percentage amounts) are carried in thousandths or hundredths and
//! truncated exactly where the rational value would be truncated to a byte.
//! Fractional parameters (blur radius, sharpen strength) are taken in
//! hundredths of a unit.

use vstd::prelude::*;

pub mod effects;
pub mod filters;
pub mod transforms;
pub mod utils;

verus! {

/// Why a construction or an operator request was rejected.
#[derive(Clone, Copy, Debug, PartialEq, Eq, Structural)]
pub enum ImageError {
    /// The buffer length does not equal `width * height * 4`.
    SizeMismatch,
    /// A numeric parameter lies outside its documented range.
    ParameterOutOfRange,
}

/// The facade that owns the current (width, height, pixel buffer) triple.
pub struct ImageProcessor {
    pub width: u32,
    pub height: u32,
    pub data: Vec<u8>,
}

impl ImageProcessor {
    /// The sole structural invariant: the buffer holds exactly
    /// `width * height` packed 4-byte pixels.
    pub open spec fn wf(self) -> bool {
        self.data@.len() == self.width * self.height * 4
    }

    /// Accepts the buffer and geometry, or rejects the pair when the
    /// buffer length does not match the dimensions.
    pub fn new(data: Vec<u8>, width: u32, height: u32) -> (r: Result<ImageProcessor, ImageError>)
        ensures
            r is Ok <==> data@.len() == width * height * 4,
            r is Ok ==> r->Ok_0.wf() && r->Ok_0.width == width && r->Ok_0.height == height
                && r->Ok_0.data@ == data@,
            r is Err ==> r->Err_0 == ImageError::SizeMismatch,
    {
        proof {
            assert((width as int) * (height as int) < 0x10000000000000000) by (nonlinear_arith)
                requires
                    width < 0x100000000,
                    height < 0x100000000,
            ;
        }
        let need: u128 = (width as u128) * (height as u128) * 4;
        if (data.len() as u128) != need {
            return Err(ImageError::SizeMismatch);
        }
        Ok(ImageProcessor { width, height, data })
    }

    /// A copy of the current pixel bytes.
    pub fn get_data(&self) -> (r: Vec<u8>)
        ensures
            r@ == self.data@,
    {
        let mut out: Vec<u8> = Vec::new();
        let mut i: usize = 0;
        while i < self.data.len()
            invariant
                i <= self.data@.len(),
                out@ =~= self.data@.subrange(0, i as int),
            decreases self.data@.len() - i,
        {
            out.push(self.data[i]);
            i = i + 1;
        }
        proof {
            assert(out@ =~= self.data@);
        }
        out
    }

    /// Current width in pixels.
    pub fn width(&self) -> (r: u32)
        ensures
            r == self.width,
    {
        self.width
    }

    /// Current height in pixels.
    pub fn height(&self) -> (r: u32)
        ensures
            r == self.height,
    {
        self.height
    }

    /// Inverts the R, G and B samples of every pixel in place.
    pub fn invert(&mut self) -> (r: Result<(), ImageError>)
        requires
            old(self).wf(),
        ensures
            final(self).wf(),
            r is Ok,
            final(self).width == old(self).width,
            final(self).height == old(self).height,
            final(self).data@ == crate::effects::invert_spec(old(self).data@),
    {
        proof {
            vstd::arithmetic::div_mod::lemma_mod_multiples_basic(
                (self.width * self.height) as int, 4);
        }
        crate::effects::invert(&mut self.data);
        Ok(())
    }

    /// Applies the sepia tone effect.
    pub fn sepia(&mut self) -> (r: Result<(), ImageError>)
        requires
            old(self).wf(),
        ensures
            final(self).wf(),
            r is Ok,
            final(self).width == old(self).width,
            final(self).height == old(self).height,
            final(self).data@ == crate::effects::sepia_spec(old(self).data@),
    {
        proof {
            vstd::arithmetic::div_mod::lemma_mod_multiples_basic(
                (self.width * self.height) as int, 4);
        }
        crate::effects::sepia(&mut self.data);
        Ok(())
    }

    /// Converts the image to grayscale with the luminosity method.
    pub fn grayscale(&mut self) -> (r: Result<(), ImageError>)
        requires
            old(self).wf(),
        ensures
            final(self).wf(),
            r is Ok,
            final(self).width == old(self).width,
            final(self).height == old(self).height,
            final(self).data@ == crate::filters::grayscale_spec(old(self).data@),
    {
        proof {
            vstd::arithmetic::div_mod::lemma_mod_multiples_basic(
                (self.width * self.height) as int, 4);
        }
        crate::filters::grayscale(&mut self.data);
        Ok(())
    }

    /// Adjusts brightness; the amount must lie in [-100, 100] percent.
    pub fn brightness(&mut self, amount: i32) -> (r: Result<(), ImageError>)
        requires
            old(self).wf(),
        ensures
            final(self).wf(),
            final(self).width == old(self).width,
            final(self).height == old(self).height,
            r is Ok <==> -100 <= amount <= 100,
            r is Ok ==> final(self).data@ == crate::effects::brightness_spec(
                old(self).data@,
                amount as int,
            ),
            r is Err ==> final(self).data@ == old(self).data@ && r->Err_0
                == ImageError::ParameterOutOfRange,
    {
        if amount < -100 || amount > 100 {
            return Err(ImageError::ParameterOutOfRange);
        }
        proof {
            vstd::arithmetic::div_mod::lemma_mod_multiples_basic(
                (self.width * self.height) as int, 4);
        }
        crate::effects::brightness(&mut self.data, amount);
        Ok(())
    }

    /// Adjusts contrast; the amount must lie in [-100, 100] percent.
    pub fn contrast(&mut self, amount: i32) -> (r: Result<(), ImageError>)
        requires
            old(self).wf(),
        ensures
            final(self).wf(),
            final(self).width == old(self).width,
            final(self).height == old(self).height,
            r is Ok <==> -100 <= amount <= 100,
            r is Ok ==> final(self).data@ == crate::effects::contrast_spec(
                old(self).data@,
                amount as int,
            ),
            r is Err ==> final(self).data@ == old(self).data@ && r->Err_0
                == ImageError::ParameterOutOfRange,
    {
        if amount < -100 || amount > 100 {
            return Err(ImageError::ParameterOutOfRange);
        }
        proof {
            vstd::arithmetic::div_mod::lemma_mod_multiples_basic(
                (self.width * self.height) as int, 4);
        }
        crate::effects::contrast(&mut self.data, amount);
        Ok(())
    }

    /// Gaussian blur; the radius is given in hundredths of a pixel and
    /// must lie in (0, 50] pixels, that is in [1, 5000] hundredths.
    pub fn blur(&mut self, radius_centi: u32) -> (r: Result<(), ImageError>)
        requires
            old(self).wf(),
        ensures
            final(self).wf(),
            final(self).width == old(self).width,
            final(self).height == old(self).height,
            r is Ok <==> 1 <= radius_centi <= 5000,
            r is Ok ==> final(self).data@ == crate::utils::blur_gauss_spec(
                old(self).data@,
                old(self).width as int,
                old(self).height as int,
                radius_centi as int,
            ),
            r is Err ==> final(self).data@ == old(self).data@ && r->Err_0
                == ImageError::ParameterOutOfRange,
    {
        if radius_centi == 0 || radius_centi > 5000 {
            return Err(ImageError::ParameterOutOfRange);
        }
        crate::filters::blur(&mut self.data, self.width, self.height, radius_centi);
        Ok(())
    }

    /// Unsharp-mask sharpening; the strength is given in hundredths and
    /// must lie in [0, 5] units, that is in [0, 500] hundredths.
    pub fn sharpen(&mut self, amount_centi: u32) -> (r: Result<(), ImageError>)
        requires
            old(self).wf(),
        ensures
            final(self).wf(),
            final(self).width == old(self).width,
            final(self).height == old(self).height,
            r is Ok <==> amount_centi <= 500,
            r is Ok ==> final(self).data@ == crate::filters::sharpen_spec(
                old(self).data@,
                old(self).width as int,
                old(self).height as int,
                amount_centi as int,
            ),
            r is Err ==> final(self).data@ == old(self).data@ && r->Err_0
                == ImageError::ParameterOutOfRange,
    {
        if amount_centi > 500 {
            return Err(ImageError::ParameterOutOfRange);
        }
        crate::filters::sharpen(&mut self.data, self.width, self.height, amount_centi);
        Ok(())
    }

    /// Sobel edge detection over the luminosity.
    pub fn edge_detect(&mut self) -> (r: Result<(), ImageError>)
        requires
            old(self).wf(),
        ensures
            final(self).wf(),
            r is Ok,
            final(self).width == old(self).width,
            final(self).height == old(self).height,
            final(self).data@ == crate::filters::edge_spec(
                old(self).data@,
                old(self).width as int,
                old(self).height as int,
            ),
    {
        crate::filters::edge_detect(&mut self.data, self.width, self.height);
        Ok(())
    }

    /// Mirrors the image across its vertical axis.
    pub fn flip_horizontal(&mut self) -> (r: Result<(), ImageError>)
        requires
            old(self).wf(),
        ensures
            final(self).wf(),
            r is Ok,
            final(self).width == old(self).width,
            final(self).height == old(self).height,
            final(self).data@ == crate::transforms::flip_h_spec(
                old(self).data@,
                old(self).width as int,
                old(self).height as int,
            ),
    {
        crate::transforms::flip_horizontal(&mut self.data, self.width, self.height);
        Ok(())
    }

    /// Mirrors the image across its horizontal axis.
    pub fn flip_vertical(&mut self) -> (r: Result<(), ImageError>)
        requires
            old(self).wf(),
        ensures
            final(self).wf(),
            r is Ok,
            final(self).width == old(self).width,
            final(self).height == old(self).height,
            final(self).data@ == crate::transforms::flip_v_spec(
                old(self).data@,
                old(self).width as int,
                old(self).height as int,
            ),
    {
        crate::transforms::flip_vertical(&mut self.data, self.width, self.height);
        Ok(())
    }

    /// Nearest-neighbor resize to the given dimensions; both must be
    /// nonzero, and the engine must currently hold at least one pixel.
    pub fn resize(&mut self, new_width: u32, new_height: u32) -> (r: Result<(), ImageError>)
        requires
            old(self).wf(),
            old(self).width >= 1,
            old(self).height >= 1,
            new_width * new_height * 4 <= usize::MAX,
        ensures
            final(self).wf(),
            r is Ok <==> (new_width >= 1 && new_height >= 1),
            r is Ok ==> final(self).width == new_width && final(self).height == new_height
                && final(self).data@ == crate::transforms::resize_spec(
                old(self).data@,
                old(self).width as int,
                old(self).height as int,
                new_width as int,
                new_height as int,
            ),
            r is Err ==> *final(self) == *old(self) && r->Err_0
                == ImageError::ParameterOutOfRange,
    {
        if new_width == 0 || new_height == 0 {
            return Err(ImageError::ParameterOutOfRange);
        }
        let out = crate::transforms::resize(
            &self.data,
            self.width,
            self.height,
            new_width,
            new_height,
        );
        self.data = out;
        self.width = new_width;
        self.height = new_height;
        Ok(())
    }

    /// Rotates the image 90 degrees clockwise, exchanging width and
    /// height.
    pub fn rotate_90(&mut self) -> (r: Result<(), ImageError>)
        requires
            old(self).wf(),
        ensures
            final(self).wf(),
            r is Ok,
            final(self).width == old(self).height,
            final(self).height == old(self).width,
            final(self).data@ == crate::transforms::rotate_spec(
                old(self).data@,
                old(self).width as int,
                old(self).height as int,
            ),
    {
        let out = crate::transforms::rotate(&self.data, self.width, self.height);
        self.data = out;
        let temp = self.width;
        self.width = self.height;
        self.height = temp;
        proof {
            let ghost ow = old(self).width as int;
            let ghost oh = old(self).height as int;
            assert(ow * oh * 4 == oh * ow * 4) by (nonlinear_arith);
        }
        Ok(())
    }
}

} // verus!
