//! Geometric transforms: nearest-neighbor resize, rotation by 90 degrees
//! clockwise, and horizontal / vertical mirror flips.
//!
//! All four are pure index remappings: pixel values move, never blend.

use vstd::prelude::*;
use vstd::arithmetic::div_mod::lemma_div_multiples_vanish;
use vstd::arithmetic::mul::lemma_mul_is_commutative;
use crate::utils::{lemma_pixel_index, lemma_index_pixel};

verus! {

/// Row of the pixel that byte `j` belongs to, in an image of width `w`.
pub open spec fn row_of(w: int, j: int) -> int {
    (j / 4) / w
}

/// Column of the pixel that byte `j` belongs to, in an image of width `w`.
pub open spec fn col_of(w: int, j: int) -> int {
    (j / 4) % w
}

/// One byte of the horizontally mirrored image: the same channel of the
/// pixel in the same row, mirrored column.
pub open spec fn flip_h_byte(s: Seq<u8>, w: int, j: int) -> u8 {
    s[(row_of(w, j) * w + (w - 1 - col_of(w, j))) * 4 + j % 4]
}

/// The whole horizontally mirrored buffer.
pub open spec fn flip_h_spec(s: Seq<u8>, w: int, h: int) -> Seq<u8> {
    Seq::new(s.len(), |j: int| flip_h_byte(s, w, j))
}

/// One byte of the vertically mirrored image: the same channel of the
/// pixel in the same column, mirrored row.
pub open spec fn flip_v_byte(s: Seq<u8>, w: int, h: int, j: int) -> u8 {
    s[((h - 1 - row_of(w, j)) * w + col_of(w, j)) * 4 + j % 4]
}

/// The whole vertically mirrored buffer.
pub open spec fn flip_v_spec(s: Seq<u8>, w: int, h: int) -> Seq<u8> {
    Seq::new(s.len(), |j: int| flip_v_byte(s, w, h, j))
}

/// One byte of the rotated image. The rotated image has width `h`; its
/// pixel at column `dx`, row `dy` came from column `dy`, row `h - 1 - dx`
/// of the source.
pub open spec fn rotate_byte(s: Seq<u8>, w: int, h: int, j: int) -> u8 {
    let dy = (j / 4) / h;
    let dx = (j / 4) % h;
    s[((h - 1 - dx) * w + dy) * 4 + j % 4]
}

/// The whole buffer rotated 90 degrees clockwise; same byte length, with
/// width and height exchanged.
pub open spec fn rotate_spec(s: Seq<u8>, w: int, h: int) -> Seq<u8> {
    Seq::new((w * h * 4) as nat, |j: int| rotate_byte(s, w, h, j))
}

/// One byte of the nearest-neighbor resample from `w` by `h` to `nw` by
/// `nh`: destination pixel (x, y) reads source pixel
/// (floor(x * w / nw), floor(y * h / nh)).
pub open spec fn resize_byte(s: Seq<u8>, w: int, h: int, nw: int, nh: int, j: int) -> u8 {
    let y = (j / 4) / nw;
    let x = (j / 4) % nw;
    s[((y * h / nh) * w + x * w / nw) * 4 + j % 4]
}

/// The whole resampled buffer, `nw * nh * 4` bytes.
pub open spec fn resize_spec(s: Seq<u8>, w: int, h: int, nw: int, nh: int) -> Seq<u8> {
    Seq::new((nw * nh * 4) as nat, |j: int| resize_byte(s, w, h, nw, nh, j))
}

/// Resize with nearest-neighbor sampling into a freshly built buffer.
pub fn resize(data: &Vec<u8>, width: u32, height: u32, new_width: u32, new_height: u32) -> (out:
    Vec<u8>)
    requires
        data@.len() == width * height * 4,
        width >= 1,
        height >= 1,
        new_width >= 1,
        new_height >= 1,
        new_width * new_height * 4 <= usize::MAX,
    ensures
        out@ == resize_spec(
            data@,
            width as int,
            height as int,
            new_width as int,
            new_height as int,
        ),
{
    let ghost s = data@;
    let ghost w = width as int;
    let ghost h = height as int;
    let ghost nw = new_width as int;
    let ghost nh = new_height as int;
    let n = data.len();
    let mut out: Vec<u8> = Vec::new();
    let mut y: usize = 0;
    while y < new_height as usize
        invariant
            s == data@,
            n == s.len(),
            s.len() == w * h * 4,
            w == width as int && h == height as int && nw == new_width as int && nh
                == new_height as int,
            1 <= w && 1 <= h && 1 <= nw && 1 <= nh,
            y <= nh,
            out@.len() == y * nw * 4,
            forall|j: int|
                0 <= j < out@.len() ==> out@[j] == resize_byte(s, w, h, nw, nh, j),
        decreases nh - y,
    {
        let mut x: usize = 0;
        while x < new_width as usize
            invariant
                s == data@,
                n == s.len(),
                s.len() == w * h * 4,
                w == width as int && h == height as int && nw == new_width as int && nh
                    == new_height as int,
                1 <= w && 1 <= h && 1 <= nw && 1 <= nh,
                y < nh,
                x <= nw,
                out@.len() == (y * nw + x) * 4,
                forall|j: int|
                    0 <= j < out@.len() ==> out@[j] == resize_byte(s, w, h, nw, nh, j),
            decreases nw - x,
        {
            proof {
                assert((y as int) * h < nh * h && (y as int) * h < 0x10000000000000000) by (
                nonlinear_arith)
                    requires
                        0 <= (y as int) < nh,
                        1 <= h < 0x100000000,
                        nh < 0x100000000,
                ;
                vstd::arithmetic::div_mod::lemma_multiply_divide_lt((y as int) * h, nh, h);
                assert((x as int) * w < nw * w && (x as int) * w < 0x10000000000000000) by (
                nonlinear_arith)
                    requires
                        0 <= (x as int) < nw,
                        1 <= w < 0x100000000,
                        nw < 0x100000000,
                ;
                vstd::arithmetic::div_mod::lemma_multiply_divide_lt((x as int) * w, nw, w);
            }
            let sy: usize = ((y as u64) * (height as u64) / (new_height as u64)) as usize;
            let sx: usize = ((x as u64) * (width as u64) / (new_width as u64)) as usize;
            proof {
                lemma_pixel_index(w, h, sx as int, sy as int, 3);
            }
            let si: usize = (sy * (width as usize) + sx) * 4;
            let b0 = data[si];
            let b1 = data[si + 1];
            let b2 = data[si + 2];
            let b3 = data[si + 3];
            out.push(b0);
            out.push(b1);
            out.push(b2);
            out.push(b3);
            proof {
                let ghost base = ((y as int) * nw + (x as int)) * 4;
                assert forall|j: int| 0 <= j < out@.len() implies out@[j] == resize_byte(
                    s, w, h, nw, nh, j) by {
                    if base <= j {
                        lemma_pixel_index(nw, nh, x as int, y as int, j - base);
                    }
                }
            }
            x = x + 1;
        }
        proof {
            assert((y * nw + nw) * 4 == ((y + 1) * nw) * 4) by (nonlinear_arith);
        }
        y = y + 1;
    }
    proof {
        assert(nh * nw * 4 == nw * nh * 4) by (nonlinear_arith);
        assert(out@ =~= resize_spec(s, w, h, nw, nh));
    }
    out
}

/// Rotate 90 degrees clockwise into a freshly built buffer whose width is
/// the source height.
pub fn rotate(data: &Vec<u8>, width: u32, height: u32) -> (out: Vec<u8>)
    requires
        data@.len() == width * height * 4,
    ensures
        out@ == rotate_spec(data@, width as int, height as int),
{
    let ghost s = data@;
    let ghost w = width as int;
    let ghost h = height as int;
    let n = data.len();
    let mut out: Vec<u8> = Vec::new();
    let mut dy: usize = 0;
    while dy < width as usize
        invariant
            s == data@,
            n == s.len(),
            s.len() == w * h * 4,
            w == width as int && h == height as int,
            dy <= w,
            out@.len() == dy * h * 4,
            forall|j: int| 0 <= j < out@.len() ==> out@[j] == rotate_byte(s, w, h, j),
        decreases w - dy,
    {
        let mut dx: usize = 0;
        while dx < height as usize
            invariant
                s == data@,
                n == s.len(),
                s.len() == w * h * 4,
                w == width as int && h == height as int,
                dy < w,
                dx <= h,
                out@.len() == (dy * h + dx) * 4,
                forall|j: int| 0 <= j < out@.len() ==> out@[j] == rotate_byte(s, w, h, j),
            decreases h - dx,
        {
            proof {
                lemma_pixel_index(w, h, dy as int, h - 1 - dx as int, 3);
            }
            let sy: usize = height as usize - 1 - dx;
            let si: usize = (sy * (width as usize) + dy) * 4;
            let b0 = data[si];
            let b1 = data[si + 1];
            let b2 = data[si + 2];
            let b3 = data[si + 3];
            out.push(b0);
            out.push(b1);
            out.push(b2);
            out.push(b3);
            proof {
                let ghost base = ((dy as int) * h + (dx as int)) * 4;
                assert forall|j: int| 0 <= j < out@.len() implies out@[j] == rotate_byte(
                    s, w, h, j) by {
                    if base <= j {
                        lemma_pixel_index(h, w, dx as int, dy as int, j - base);
                    }
                }
            }
            dx = dx + 1;
        }
        proof {
            assert((dy * h + h) * 4 == ((dy + 1) * h) * 4) by (nonlinear_arith);
        }
        dy = dy + 1;
    }
    proof {
        assert(out@ =~= rotate_spec(s, w, h));
    }
    out
}

/// Mirror the image across its vertical axis, swapping whole 4-byte
/// pixels in place; only the left half of each row is walked.
pub fn flip_horizontal(data: &mut Vec<u8>, width: u32, height: u32)
    requires
        old(data)@.len() == width * height * 4,
    ensures
        final(data)@ == flip_h_spec(old(data)@, width as int, height as int),
{
    let ghost s = old(data)@;
    let ghost w = width as int;
    let ghost h = height as int;
    let n = data.len();
    let mut y: usize = 0;
    while y < height as usize
        invariant
            data@.len() == s.len(),
            n == s.len(),
            s.len() == w * h * 4,
            w == width as int && h == height as int,
            y <= h,
            forall|j: int|
                0 <= j < s.len() ==> #[trigger] data@[j] == (if row_of(w, j) < y {
                    flip_h_byte(s, w, j)
                } else {
                    s[j]
                }),
        decreases h - y,
    {
        proof {
            assert forall|j: int| 0 <= j < s.len() implies #[trigger] data@[j] == (if row_of(
                w, j) < y || (row_of(w, j) == y && (col_of(w, j) < 0 || col_of(w, j) > w - 1)) {
                flip_h_byte(s, w, j)
            } else {
                s[j]
            }) by {
                lemma_index_pixel(w, h, j);
            }
        }
        let mut x: usize = 0;
        while x < (width / 2) as usize
            invariant
                data@.len() == s.len(),
                n == s.len(),
                s.len() == w * h * 4,
                w == width as int && h == height as int,
                y < h,
                x <= w / 2,
                forall|j: int|
                    0 <= j < s.len() ==> #[trigger] data@[j] == (if row_of(w, j) < y || (row_of(
                        w, j) == y && (col_of(w, j) < x || col_of(w, j) > w - 1 - x)) {
                        flip_h_byte(s, w, j)
                    } else {
                        s[j]
                    }),
            decreases w / 2 - x,
        {
            proof {
                vstd::arithmetic::div_mod::lemma_fundamental_div_mod(w, 2);
                lemma_pixel_index(w, h, x as int, y as int, 3);
                lemma_pixel_index(w, h, w - 1 - x as int, y as int, 3);
            }
            let li: usize = (y * (width as usize) + x) * 4;
            let ri: usize = (y * (width as usize) + ((width as usize) - 1 - x)) * 4;
            let l0 = data[li];
            let l1 = data[li + 1];
            let l2 = data[li + 2];
            let l3 = data[li + 3];
            let r0 = data[ri];
            let r1 = data[ri + 1];
            let r2 = data[ri + 2];
            let r3 = data[ri + 3];
            data[li] = r0;
            data[li + 1] = r1;
            data[li + 2] = r2;
            data[li + 3] = r3;
            data[ri] = l0;
            data[ri + 1] = l1;
            data[ri + 2] = l2;
            data[ri + 3] = l3;
            proof {
                let ghost lb = ((y as int) * w + (x as int)) * 4;
                let ghost rb = ((y as int) * w + (w - 1 - x as int)) * 4;
                assert forall|j: int| 0 <= j < s.len() implies #[trigger] data@[j] == (if row_of(
                    w, j) < y || (row_of(w, j) == y && (col_of(w, j) < x + 1 || col_of(w, j) > w
                    - 1 - (x + 1))) {
                    flip_h_byte(s, w, j)
                } else {
                    s[j]
                }) by {
                    lemma_index_pixel(w, h, j);
                    if lb <= j < lb + 4 {
                        lemma_pixel_index(w, h, x as int, y as int, j - lb);
                    } else if rb <= j < rb + 4 {
                        lemma_pixel_index(w, h, w - 1 - x as int, y as int, j - rb);
                    }
                }
            }
            x = x + 1;
        }
        proof {
            vstd::arithmetic::div_mod::lemma_fundamental_div_mod(w, 2);
            assert forall|j: int| 0 <= j < s.len() implies #[trigger] data@[j] == (if row_of(
                w, j) < y + 1 {
                flip_h_byte(s, w, j)
            } else {
                s[j]
            }) by {
                lemma_index_pixel(w, h, j);
                if row_of(w, j) == y && !(col_of(w, j) < w / 2 || col_of(w, j) > w - 1 - w / 2) {
                    // the untouched middle column of an odd width maps to itself
                    lemma_pixel_index(w, h, col_of(w, j), y as int, j % 4);
                }
            }
        }
        y = y + 1;
    }
    proof {
        assert forall|j: int| 0 <= j < s.len() implies data@[j] == flip_h_byte(s, w, j) by {
            lemma_index_pixel(w, h, j);
        }
        assert(data@ =~= flip_h_spec(s, w, h));
    }
}

/// Mirror the image across its horizontal axis, swapping whole 4-byte
/// pixels in place; only the top half of the rows is walked.
pub fn flip_vertical(data: &mut Vec<u8>, width: u32, height: u32)
    requires
        old(data)@.len() == width * height * 4,
    ensures
        final(data)@ == flip_v_spec(old(data)@, width as int, height as int),
{
    let ghost s = old(data)@;
    let ghost w = width as int;
    let ghost h = height as int;
    let n = data.len();
    proof {
        assert forall|j: int| 0 <= j < s.len() implies !(row_of(w, j) < 0 || row_of(w, j) > h
            - 1) by {
            lemma_index_pixel(w, h, j);
        }
    }
    let mut y: usize = 0;
    while y < (height / 2) as usize
        invariant
            data@.len() == s.len(),
            n == s.len(),
            s.len() == w * h * 4,
            w == width as int && h == height as int,
            y <= h / 2,
            forall|j: int|
                0 <= j < s.len() ==> #[trigger] data@[j] == (if row_of(w, j) < y || row_of(w, j)
                    > h - 1 - y {
                    flip_v_byte(s, w, h, j)
                } else {
                    s[j]
                }),
        decreases h / 2 - y,
    {
        proof {
            vstd::arithmetic::div_mod::lemma_fundamental_div_mod(h, 2);
            assert forall|j: int| 0 <= j < s.len() implies #[trigger] data@[j] == (if row_of(
                w, j) < y || row_of(w, j) > h - 1 - y || ((row_of(w, j) == y || row_of(w, j) == h
                - 1 - y) && col_of(w, j) < 0) {
                flip_v_byte(s, w, h, j)
            } else {
                s[j]
            }) by {
                lemma_index_pixel(w, h, j);
            }
        }
        let mut x: usize = 0;
        while x < width as usize
            invariant
                data@.len() == s.len(),
                n == s.len(),
                s.len() == w * h * 4,
                w == width as int && h == height as int,
                y < h / 2,
                x <= w,
                forall|j: int|
                    0 <= j < s.len() ==> #[trigger] data@[j] == (if row_of(w, j) < y || row_of(
                        w, j) > h - 1 - y || ((row_of(w, j) == y || row_of(w, j) == h - 1 - y)
                        && col_of(w, j) < x) {
                        flip_v_byte(s, w, h, j)
                    } else {
                        s[j]
                    }),
            decreases w - x,
        {
            proof {
                vstd::arithmetic::div_mod::lemma_fundamental_div_mod(h, 2);
                lemma_pixel_index(w, h, x as int, y as int, 3);
                lemma_pixel_index(w, h, x as int, h - 1 - y as int, 3);
            }
            let ti: usize = (y * (width as usize) + x) * 4;
            let bi: usize = (((height as usize) - 1 - y) * (width as usize) + x) * 4;
            let t0 = data[ti];
            let t1 = data[ti + 1];
            let t2 = data[ti + 2];
            let t3 = data[ti + 3];
            let b0 = data[bi];
            let b1 = data[bi + 1];
            let b2 = data[bi + 2];
            let b3 = data[bi + 3];
            data[ti] = b0;
            data[ti + 1] = b1;
            data[ti + 2] = b2;
            data[ti + 3] = b3;
            data[bi] = t0;
            data[bi + 1] = t1;
            data[bi + 2] = t2;
            data[bi + 3] = t3;
            proof {
                let ghost tb = ((y as int) * w + (x as int)) * 4;
                let ghost bb = ((h - 1 - y as int) * w + (x as int)) * 4;
                assert forall|j: int| 0 <= j < s.len() implies #[trigger] data@[j] == (if row_of(
                    w, j) < y || row_of(w, j) > h - 1 - y || ((row_of(w, j) == y || row_of(w, j)
                    == h - 1 - y) && col_of(w, j) < x + 1) {
                    flip_v_byte(s, w, h, j)
                } else {
                    s[j]
                }) by {
                    lemma_index_pixel(w, h, j);
                    if tb <= j < tb + 4 {
                        lemma_pixel_index(w, h, x as int, y as int, j - tb);
                    } else if bb <= j < bb + 4 {
                        lemma_pixel_index(w, h, x as int, h - 1 - y as int, j - bb);
                    }
                }
            }
            x = x + 1;
        }
        proof {
            assert forall|j: int| 0 <= j < s.len() implies #[trigger] data@[j] == (if row_of(
                w, j) < y + 1 || row_of(w, j) > h - 1 - (y + 1) {
                flip_v_byte(s, w, h, j)
            } else {
                s[j]
            }) by {
                lemma_index_pixel(w, h, j);
            }
        }
        y = y + 1;
    }
    proof {
        vstd::arithmetic::div_mod::lemma_fundamental_div_mod(h, 2);
        assert forall|j: int| 0 <= j < s.len() implies data@[j] == flip_v_byte(s, w, h, j) by {
            lemma_index_pixel(w, h, j);
            if !(row_of(w, j) < h / 2 || row_of(w, j) > h - 1 - h / 2) {
                // the untouched middle row of an odd height maps to itself
                lemma_pixel_index(w, h, col_of(w, j), row_of(w, j), j % 4);
            }
        }
        assert(data@ =~= flip_v_spec(s, w, h));
    }
}

/// Mirroring twice across the vertical axis restores every byte.
pub proof fn lemma_flip_horizontal_involutive(s: Seq<u8>, w: int, h: int)
    requires
        s.len() == w * h * 4,
        w >= 1,
    ensures
        flip_h_spec(flip_h_spec(s, w, h), w, h) == s,
{
    let f1 = flip_h_spec(s, w, h);
    assert forall|i: int| 0 <= i < s.len() implies flip_h_spec(f1, w, h)[i] == s[i] by {
        lemma_index_pixel(w, h, i);
        let y = row_of(w, i);
        let x = col_of(w, i);
        let c = i % 4;
        lemma_pixel_index(w, h, w - 1 - x, y, c);
        let m = (y * w + (w - 1 - x)) * 4 + c;
        assert(flip_h_spec(f1, w, h)[i] == f1[m]);
        assert(f1[m] == s[(y * w + (w - 1 - (w - 1 - x))) * 4 + c]);
        assert((y * w + x) * 4 + c == i);
    }
    assert(flip_h_spec(f1, w, h) =~= s);
}

/// Mirroring twice across the horizontal axis restores every byte.
pub proof fn lemma_flip_vertical_involutive(s: Seq<u8>, w: int, h: int)
    requires
        s.len() == w * h * 4,
        w >= 1,
    ensures
        flip_v_spec(flip_v_spec(s, w, h), w, h) == s,
{
    let f1 = flip_v_spec(s, w, h);
    assert forall|i: int| 0 <= i < s.len() implies flip_v_spec(f1, w, h)[i] == s[i] by {
        lemma_index_pixel(w, h, i);
        let y = row_of(w, i);
        let x = col_of(w, i);
        let c = i % 4;
        lemma_pixel_index(w, h, x, h - 1 - y, c);
        let m = ((h - 1 - y) * w + x) * 4 + c;
        assert(flip_v_spec(f1, w, h)[i] == f1[m]);
        assert(f1[m] == s[((h - 1 - (h - 1 - y)) * w + x) * 4 + c]);
        assert((y * w + x) * 4 + c == i);
    }
    assert(flip_v_spec(f1, w, h) =~= s);
}

/// Four quarter turns clockwise restore the original buffer and geometry.
pub proof fn lemma_rotate_four_times(s: Seq<u8>, w: int, h: int)
    requires
        s.len() == w * h * 4,
        w >= 1,
        h >= 1,
    ensures
        rotate_spec(rotate_spec(rotate_spec(rotate_spec(s, w, h), h, w), w, h), h, w) == s,
{
    let r1 = rotate_spec(s, w, h);
    let r2 = rotate_spec(r1, h, w);
    let r3 = rotate_spec(r2, w, h);
    let r4 = rotate_spec(r3, h, w);
    assert(h * w * 4 == w * h * 4) by (nonlinear_arith);
    assert forall|i: int| 0 <= i < s.len() implies r4[i] == s[i] by {
        lemma_index_pixel(w, h, i);
        let y = row_of(w, i);
        let x = col_of(w, i);
        let c = i % 4;
        lemma_pixel_index(h, w, y, w - 1 - x, c);
        let j3 = ((w - 1 - x) * h + y) * 4 + c;
        assert(r4[i] == r3[j3]);
        lemma_pixel_index(w, h, w - 1 - x, h - 1 - y, c);
        let j2 = ((h - 1 - y) * w + (w - 1 - x)) * 4 + c;
        assert(r3[j3] == r2[j2]);
        lemma_pixel_index(h, w, h - 1 - y, x, c);
        let j1 = (x * h + (h - 1 - y)) * 4 + c;
        assert(r2[j2] == r1[j1]);
        assert(r1[j1] == s[(y * w + x) * 4 + c]);
        assert((y * w + x) * 4 + c == i);
    }
    assert(r4 =~= s);
}

/// Resampling to the unchanged dimensions reproduces the buffer exactly.
pub proof fn lemma_resize_identity(s: Seq<u8>, w: int, h: int)
    requires
        s.len() == w * h * 4,
        w >= 1,
        h >= 1,
    ensures
        resize_spec(s, w, h, w, h) == s,
{
    assert forall|i: int| 0 <= i < s.len() implies resize_spec(s, w, h, w, h)[i] == s[i] by {
        lemma_index_pixel(w, h, i);
        let y = row_of(w, i);
        let x = col_of(w, i);
        let c = i % 4;
        lemma_mul_is_commutative(y, h);
        lemma_div_multiples_vanish(y, h);
        lemma_mul_is_commutative(x, w);
        lemma_div_multiples_vanish(x, w);
        assert(y * h / h == y);
        assert(x * w / w == x);
        assert((y * w + x) * 4 + c == i);
    }
    assert(resize_spec(s, w, h, w, h) =~= s);
}

} // verus!
