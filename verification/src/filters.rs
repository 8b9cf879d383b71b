//! Color-space filters and neighborhood filters: grayscale, Gaussian blur,
//! unsharp-mask sharpening and Sobel edge detection.
//!
//! Luminosity uses the classic weights 0.299/0.587/0.114 carried exactly in
//! thousandths and truncated to a byte, never rounded.

use vstd::prelude::*;
use crate::utils::{
    lemma_pixel_index, scaled100_to_byte, byte_from_scaled100, clamp255, sqrt_floor, isqrt,
};

verus! {

/// The luminosity of a pixel, in thousandths of a sample unit.
pub open spec fn lum_value(r: u8, g: u8, b: u8) -> int {
    299 * r + 587 * g + 114 * b
}

/// One byte of the grayscale image: all three color samples take the
/// truncated luminosity; alpha is kept.
pub open spec fn gray_byte(s: Seq<u8>, i: int) -> u8 {
    if i % 4 == 3 {
        s[i]
    } else {
        let p = i - i % 4;
        (lum_value(s[p], s[p + 1], s[p + 2]) / 1000) as u8
    }
}

/// The whole grayscale buffer.
pub open spec fn grayscale_spec(s: Seq<u8>) -> Seq<u8> {
    Seq::new(s.len(), |i: int| gray_byte(s, i))
}

/// Convert the image to grayscale with the luminosity method, in place.
pub fn grayscale(data: &mut Vec<u8>)
    requires
        old(data)@.len() % 4 == 0,
    ensures
        final(data)@ == grayscale_spec(old(data)@),
        forall|j: int|
            0 <= j < final(data)@.len() && j % 4 == 3 ==> final(data)@[j] == old(data)@[j],
{
    let ghost s = old(data)@;
    let n = data.len();
    let pixels = n / 4;
    proof {
        vstd::arithmetic::div_mod::lemma_fundamental_div_mod(s.len() as int, 4);
    }
    let mut p: usize = 0;
    while p < pixels
        invariant
            data@.len() == s.len(),
            s.len() == n,
            n == 4 * pixels,
            p <= pixels,
            forall|j: int| 0 <= j < 4 * p ==> data@[j] == gray_byte(s, j),
            forall|j: int| 4 * p <= j < s.len() ==> data@[j] == s[j],
        decreases pixels - p,
    {
        let i = 4 * p;
        let r = data[i];
        let g = data[i + 1];
        let b = data[i + 2];
        let lum: u32 = 299 * (r as u32) + 587 * (g as u32) + 114 * (b as u32);
        let gray: u8 = (lum / 1000) as u8;
        data[i] = gray;
        data[i + 1] = gray;
        data[i + 2] = gray;
        proof {
            assert forall|j: int| 0 <= j < 4 * (p + 1) implies data@[j] == gray_byte(s, j) by {
                if i <= j < i + 4 {
                    vstd::arithmetic::div_mod::lemma_fundamental_div_mod_converse(
                        j, 4, p as int, j - i);
                }
            }
        }
        p = p + 1;
    }
    proof {
        assert(data@ =~= grayscale_spec(s));
        assert forall|j: int| 0 <= j < s.len() && j % 4 == 3 implies data@[j] == s[j] by {
            assert(data@[j] == gray_byte(s, j));
        }
    }
}

/// Gaussian blur with a radius in hundredths of a pixel, in place.
pub fn blur(data: &mut Vec<u8>, width: u32, height: u32, radius_centi: u32)
    requires
        old(data)@.len() == width * height * 4,
        1 <= radius_centi <= 5000,
    ensures
        final(data)@ == crate::utils::blur_gauss_spec(
            old(data)@,
            width as int,
            height as int,
            radius_centi as int,
        ),
        forall|j: int|
            0 <= j < final(data)@.len() && j % 4 == 3 ==> final(data)@[j] == old(data)@[j],
{
    crate::utils::blur_gaussian(data, width, height, radius_centi);
}

/// One byte of the unsharp mask: `original + (original - blurred) * amount`
/// with the strength in hundredths, clamped and truncated; alpha kept.
pub open spec fn sharp_byte(s: Seq<u8>, bl: Seq<u8>, amount_centi: int, i: int) -> u8 {
    if i % 4 == 3 {
        s[i]
    } else {
        scaled100_to_byte(100 * s[i] + (s[i] - bl[i]) * amount_centi)
    }
}

/// The whole sharpened buffer: the unsharp mask against a Gaussian blur
/// of fixed radius one.
pub open spec fn sharpen_spec(s: Seq<u8>, w: int, h: int, amount_centi: int) -> Seq<u8> {
    Seq::new(
        s.len(),
        |i: int| sharp_byte(s, crate::utils::blur_gauss_spec(s, w, h, 100), amount_centi, i),
    )
}

/// Unsharp-mask sharpening, in place: blur a copy at radius one, then push
/// each sample away from its blurred value by `amount_centi` hundredths.
pub fn sharpen(data: &mut Vec<u8>, width: u32, height: u32, amount_centi: u32)
    requires
        old(data)@.len() == width * height * 4,
        amount_centi <= 500,
    ensures
        final(data)@ == sharpen_spec(
            old(data)@,
            width as int,
            height as int,
            amount_centi as int,
        ),
        forall|j: int|
            0 <= j < final(data)@.len() && j % 4 == 3 ==> final(data)@[j] == old(data)@[j],
{
    let ghost s = old(data)@;
    let ghost w = width as int;
    let ghost h = height as int;
    let n = data.len();
    let mut blurred: Vec<u8> = Vec::new();
    let mut i0: usize = 0;
    while i0 < n
        invariant
            data@ == s,
            n == s.len(),
            i0 <= n,
            blurred@ =~= s.subrange(0, i0 as int),
        decreases n - i0,
    {
        blurred.push(data[i0]);
        i0 = i0 + 1;
    }
    proof {
        assert(blurred@ =~= s);
    }
    crate::utils::blur_gaussian(&mut blurred, width, height, 100);
    let ghost bl = blurred@;
    proof {
        vstd::arithmetic::div_mod::lemma_fundamental_div_mod(s.len() as int, 4);
        vstd::arithmetic::div_mod::lemma_mod_multiples_basic((width * height) as int, 4);
        assert(bl.len() == s.len());
    }
    let pixels = n / 4;
    let mut p: usize = 0;
    while p < pixels
        invariant
            data@.len() == s.len(),
            blurred@ == bl,
            bl == crate::utils::blur_gauss_spec(s, w, h, 100),
            bl.len() == s.len(),
            s.len() == n,
            n == 4 * pixels,
            p <= pixels,
            amount_centi <= 500,
            forall|j: int|
                0 <= j < 4 * p ==> data@[j] == sharp_byte(s, bl, amount_centi as int, j),
            forall|j: int| 4 * p <= j < s.len() ==> data@[j] == s[j],
        decreases pixels - p,
    {
        let i = 4 * p;
        let mut c: usize = 0;
        while c < 3
            invariant
                data@.len() == s.len(),
                blurred@ == bl,
                bl.len() == s.len(),
                s.len() == n,
                n == 4 * pixels,
                p < pixels,
                i == 4 * p,
                c <= 3,
                amount_centi <= 500,
                forall|j: int|
                    0 <= j < 4 * p ==> data@[j] == sharp_byte(s, bl, amount_centi as int, j),
                forall|j: int| i + c <= j < s.len() ==> data@[j] == s[j],
                forall|j: int|
                    i <= j < i + c ==> data@[j] == sharp_byte(s, bl, amount_centi as int, j),
            decreases 3 - c,
        {
            let o = data[i + c];
            let b = blurred[i + c];
            proof {
                assert(-127500 <= ((o as int) - (b as int)) * (amount_centi as int)
                    <= 127500) by (nonlinear_arith)
                    requires
                        -255 <= (o as int) - (b as int) <= 255,
                        0 <= amount_centi as int <= 500,
                ;
            }
            let t: i64 = 100 * (o as i64) + ((o as i64) - (b as i64)) * (amount_centi as i64);
            data[i + c] = byte_from_scaled100(t);
            proof {
                vstd::arithmetic::div_mod::lemma_fundamental_div_mod_converse(
                    (i + c) as int, 4, p as int, c as int);
            }
            c = c + 1;
        }
        proof {
            assert forall|j: int| 0 <= j < 4 * (p + 1) implies data@[j] == sharp_byte(
                s, bl, amount_centi as int, j) by {
                if j == i + 3 {
                    vstd::arithmetic::div_mod::lemma_fundamental_div_mod_converse(
                        j, 4, p as int, 3);
                }
            }
        }
        p = p + 1;
    }
    proof {
        assert(data@ =~= sharpen_spec(s, w, h, amount_centi as int));
        assert forall|j: int| 0 <= j < s.len() && j % 4 == 3 implies data@[j] == s[j] by {
            assert(data@[j] == sharp_byte(s, bl, amount_centi as int, j));
        }
    }
}

/// The luminosity, in thousandths, of the pixel at column `x`, row `y`.
pub open spec fn lum_at(s: Seq<u8>, w: int, x: int, y: int) -> int {
    lum_value(s[(y * w + x) * 4], s[(y * w + x) * 4 + 1], s[(y * w + x) * 4 + 2])
}

/// The horizontal Sobel gradient of the luminosity at (x, y), scaled by
/// 1000 like the luminosity itself.
pub open spec fn sobel_gx(s: Seq<u8>, w: int, x: int, y: int) -> int {
    lum_at(s, w, x + 1, y - 1) - lum_at(s, w, x - 1, y - 1) + 2 * lum_at(s, w, x + 1, y) - 2
        * lum_at(s, w, x - 1, y) + lum_at(s, w, x + 1, y + 1) - lum_at(s, w, x - 1, y + 1)
}

/// The vertical Sobel gradient of the luminosity at (x, y), scaled by 1000.
pub open spec fn sobel_gy(s: Seq<u8>, w: int, x: int, y: int) -> int {
    lum_at(s, w, x - 1, y + 1) + 2 * lum_at(s, w, x, y + 1) + lum_at(s, w, x + 1, y + 1) - lum_at(
        s, w, x - 1, y - 1) - 2 * lum_at(s, w, x, y - 1) - lum_at(s, w, x + 1, y - 1)
}

/// The edge magnitude at (x, y): `sqrt(gx^2 + gy^2) / 8`, truncated and
/// clamped to a byte. The extra factor 8000 folds away the luminosity
/// scale of 1000.
pub open spec fn edge_mag(s: Seq<u8>, w: int, x: int, y: int) -> int {
    clamp255(
        sqrt_floor(
            sobel_gx(s, w, x, y) * sobel_gx(s, w, x, y) + sobel_gy(s, w, x, y) * sobel_gy(
                s, w, x, y),
        ) / 8000,
    )
}

/// One byte of the edge-detected image. Interior pixels carry the edge
/// magnitude on R, G and B and keep their alpha; border pixels, which
/// lack a full 3 by 3 neighborhood, are left all-zero.
pub open spec fn edge_byte(s: Seq<u8>, w: int, h: int, i: int) -> u8 {
    let y = (i / 4) / w;
    let x = (i / 4) % w;
    if 1 <= x && x + 1 < w && 1 <= y && y + 1 < h {
        if i % 4 == 3 {
            s[i]
        } else {
            edge_mag(s, w, x, y) as u8
        }
    } else {
        0u8
    }
}

/// The whole edge-detected buffer.
pub open spec fn edge_spec(s: Seq<u8>, w: int, h: int) -> Seq<u8> {
    Seq::new(s.len(), |i: int| edge_byte(s, w, h, i))
}

/// Exec counterpart of `lum_at`.
fn luminance_at(data: &Vec<u8>, width: u32, height: u32, x: usize, y: usize) -> (l: u64)
    requires
        data@.len() == width * height * 4,
        x < width,
        y < height,
    ensures
        l == lum_at(data@, width as int, x as int, y as int),
        l <= 255000,
{
    let n = data.len();
    proof {
        lemma_pixel_index(width as int, height as int, x as int, y as int, 3);
        assert(((y as int) * (width as int) + x as int) * 4 + 3 < n as int);
    }
    let idx = (y * (width as usize) + x) * 4;
    299 * (data[idx] as u64) + 587 * (data[idx + 1] as u64) + 114 * (data[idx + 2] as u64)
}

/// Sobel edge detection: each interior pixel takes the clamped gradient
/// magnitude of the luminosity over its 3 by 3 neighborhood; border
/// pixels become all-zero; interior alpha is carried over. The result is
/// assembled in a fresh buffer and replaces the input wholesale.
pub fn edge_detect(data: &mut Vec<u8>, width: u32, height: u32)
    requires
        old(data)@.len() == width * height * 4,
    ensures
        final(data)@ == edge_spec(old(data)@, width as int, height as int),
        forall|j: int|
            0 <= j < final(data)@.len() && j % 4 == 3 && 1 <= (j / 4) % (width as int) < width
                - 1 && 1 <= (j / 4) / (width as int) < height - 1 ==> final(data)@[j] == old(
                data,
            )@[j],
{
    let ghost s = old(data)@;
    let ghost w = width as int;
    let ghost h = height as int;
    let n = data.len();
    let mut out: Vec<u8> = Vec::new();
    let mut y: usize = 0;
    while y < height as usize
        invariant
            s == data@,
            n == s.len(),
            s.len() == w * h * 4,
            w == width as int && h == height as int,
            y <= h,
            out@.len() == y * w * 4,
            forall|j: int| 0 <= j < out@.len() ==> out@[j] == edge_byte(s, w, h, j),
        decreases h - y,
    {
        let mut x: usize = 0;
        while x < width as usize
            invariant
                s == data@,
                n == s.len(),
                s.len() == w * h * 4,
                w == width as int && h == height as int,
                y < h,
                x <= w,
                out@.len() == (y * w + x) * 4,
                forall|j: int| 0 <= j < out@.len() ==> out@[j] == edge_byte(s, w, h, j),
            decreases w - x,
        {
            if 1 <= x && x + 1 < width as usize && 1 <= y && y + 1 < height as usize {
                let la = luminance_at(data, width, height, x - 1, y - 1);
                let lb = luminance_at(data, width, height, x, y - 1);
                let lc = luminance_at(data, width, height, x + 1, y - 1);
                let ld = luminance_at(data, width, height, x - 1, y);
                let lf = luminance_at(data, width, height, x + 1, y);
                let lg = luminance_at(data, width, height, x - 1, y + 1);
                let lh = luminance_at(data, width, height, x, y + 1);
                let lk = luminance_at(data, width, height, x + 1, y + 1);
                let gx: i64 = (lc + 2 * lf + lk) as i64 - (la + 2 * ld + lg) as i64;
                let gy: i64 = (lg + 2 * lh + lk) as i64 - (la + 2 * lb + lc) as i64;
                proof {
                    assert(gx == sobel_gx(s, w, x as int, y as int));
                    assert(gy == sobel_gy(s, w, x as int, y as int));
                    assert((gx as int) * (gx as int) + (gy as int) * (gy as int)
                        < 0x4000000000000000 && (gx as int) * (gx as int) >= 0 && (gy as int) * (
                    gy as int) >= 0) by (nonlinear_arith)
                        requires
                            -1020000 <= gx as int <= 1020000,
                            -1020000 <= gy as int <= 1020000,
                    ;
                }
                let m: u64 = (gx * gx + gy * gy) as u64;
                let root = isqrt(m);
                let e64 = root / 8000;
                let e: u8 = if e64 > 255 {
                    255
                } else {
                    e64 as u8
                };
                proof {
                    lemma_pixel_index(w, h, x as int, y as int, 3);
                    crate::utils::lemma_sqrt_floor(m as int);
                }
                let alpha = data[(y * (width as usize) + x) * 4 + 3];
                out.push(e);
                out.push(e);
                out.push(e);
                out.push(alpha);
                proof {
                    let ghost base = ((y as int) * w + (x as int)) * 4;
                    assert forall|j: int| 0 <= j < out@.len() implies out@[j] == edge_byte(
                        s, w, h, j) by {
                        if base <= j {
                            lemma_pixel_index(w, h, x as int, y as int, j - base);
                        }
                    }
                }
            } else {
                out.push(0);
                out.push(0);
                out.push(0);
                out.push(0);
                proof {
                    let ghost base = ((y as int) * w + (x as int)) * 4;
                    lemma_pixel_index(w, h, x as int, y as int, 3);
                    assert forall|j: int| 0 <= j < out@.len() implies out@[j] == edge_byte(
                        s, w, h, j) by {
                        if base <= j {
                            lemma_pixel_index(w, h, x as int, y as int, j - base);
                        }
                    }
                }
            }
            x = x + 1;
        }
        proof {
            assert((y * w + w) * 4 == ((y + 1) * w) * 4) by (nonlinear_arith);
        }
        y = y + 1;
    }
    *data = out;
    proof {
        assert(h * w * 4 == w * h * 4) by (nonlinear_arith);
        assert(data@ =~= edge_spec(s, w, h));
        assert forall|j: int|
            0 <= j < s.len() && j % 4 == 3 && 1 <= (j / 4) % w < w - 1 && 1 <= (j / 4) / w < h
                - 1 implies data@[j] == s[j] by {
            assert(data@[j] == edge_byte(s, w, h, j));
        }
    }
}

} // verus!
