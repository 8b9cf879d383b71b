//! Per-pixel color effects: sepia, invert, brightness and contrast.
//!
//! Every effect maps each pixel's R, G and B samples through a pure
//! integer formula and leaves the alpha sample untouched. Fractional
//! coefficients are carried exactly: matrix weights in thousandths,
//! percentage amounts in hundredths.

use vstd::prelude::*;
use crate::utils::{clamp255, scaled100_to_byte, byte_from_scaled100};

verus! {

/// One byte of the sepia-toned image. The classic mixing matrix is carried
/// in thousandths; each output is truncated and clamped to a byte.
pub open spec fn sepia_byte(s: Seq<u8>, i: int) -> u8 {
    let p = i - i % 4;
    let r = s[p] as int;
    let g = s[p + 1] as int;
    let b = s[p + 2] as int;
    if i % 4 == 0 {
        clamp255((393 * r + 769 * g + 189 * b) / 1000) as u8
    } else if i % 4 == 1 {
        clamp255((349 * r + 686 * g + 168 * b) / 1000) as u8
    } else if i % 4 == 2 {
        clamp255((272 * r + 534 * g + 131 * b) / 1000) as u8
    } else {
        s[i]
    }
}

/// The whole sepia-toned buffer.
pub open spec fn sepia_spec(s: Seq<u8>) -> Seq<u8> {
    Seq::new(s.len(), |i: int| sepia_byte(s, i))
}

/// Apply the sepia tone effect, in place.
pub fn sepia(data: &mut Vec<u8>)
    requires
        old(data)@.len() % 4 == 0,
    ensures
        final(data)@ == sepia_spec(old(data)@),
        forall|j: int|
            0 <= j < final(data)@.len() && j % 4 == 3 ==> final(data)@[j] == old(data)@[j],
{
    let ghost s = old(data)@;
    let n = data.len();
    let pixels = n / 4;
    proof {
        vstd::arithmetic::div_mod::lemma_fundamental_div_mod(s.len() as int, 4);
    }
    let mut p: usize = 0;
    while p < pixels
        invariant
            data@.len() == s.len(),
            s.len() == n,
            n == 4 * pixels,
            p <= pixels,
            forall|j: int| 0 <= j < 4 * p ==> data@[j] == sepia_byte(s, j),
            forall|j: int| 4 * p <= j < s.len() ==> data@[j] == s[j],
        decreases pixels - p,
    {
        let i = 4 * p;
        let r = data[i] as u64;
        let g = data[i + 1] as u64;
        let b = data[i + 2] as u64;
        let tr: u64 = (393 * r + 769 * g + 189 * b) / 1000;
        let tg: u64 = (349 * r + 686 * g + 168 * b) / 1000;
        let tb: u64 = (272 * r + 534 * g + 131 * b) / 1000;
        data[i] = if tr > 255 { 255 } else { tr as u8 };
        data[i + 1] = if tg > 255 { 255 } else { tg as u8 };
        data[i + 2] = if tb > 255 { 255 } else { tb as u8 };
        proof {
            assert forall|j: int| 0 <= j < 4 * (p + 1) implies data@[j] == sepia_byte(s, j) by {
                if i <= j < i + 4 {
                    vstd::arithmetic::div_mod::lemma_fundamental_div_mod_converse(
                        j, 4, p as int, j - i);
                }
            }
        }
        p = p + 1;
    }
    proof {
        assert(data@ =~= sepia_spec(s));
        assert forall|j: int| 0 <= j < s.len() && j % 4 == 3 implies data@[j] == s[j] by {
            assert(data@[j] == sepia_byte(s, j));
        }
    }
}

/// One byte of the inverted image: `255 - sample` on R, G and B, alpha kept.
pub open spec fn invert_byte(s: Seq<u8>, i: int) -> u8 {
    if i % 4 == 3 {
        s[i]
    } else {
        (255 - s[i]) as u8
    }
}

/// The whole inverted buffer.
pub open spec fn invert_spec(s: Seq<u8>) -> Seq<u8> {
    Seq::new(s.len(), |i: int| invert_byte(s, i))
}

/// Invert the R, G and B samples of every pixel, in place.
pub fn invert(data: &mut Vec<u8>)
    requires
        old(data)@.len() % 4 == 0,
    ensures
        final(data)@ == invert_spec(old(data)@),
        forall|j: int|
            0 <= j < final(data)@.len() && j % 4 == 3 ==> final(data)@[j] == old(data)@[j],
{
    let ghost s = old(data)@;
    let n = data.len();
    let pixels = n / 4;
    proof {
        vstd::arithmetic::div_mod::lemma_fundamental_div_mod(s.len() as int, 4);
    }
    let mut p: usize = 0;
    while p < pixels
        invariant
            data@.len() == s.len(),
            s.len() == n,
            n == 4 * pixels,
            p <= pixels,
            forall|j: int| 0 <= j < 4 * p ==> data@[j] == invert_byte(s, j),
            forall|j: int| 4 * p <= j < s.len() ==> data@[j] == s[j],
        decreases pixels - p,
    {
        let i = 4 * p;
        let r = data[i];
        let g = data[i + 1];
        let b = data[i + 2];
        data[i] = 255 - r;
        data[i + 1] = 255 - g;
        data[i + 2] = 255 - b;
        proof {
            assert forall|j: int| 0 <= j < 4 * (p + 1) implies data@[j] == invert_byte(s, j) by {
                if i <= j < i + 4 {
                    vstd::arithmetic::div_mod::lemma_fundamental_div_mod_converse(
                        j, 4, p as int, j - i);
                }
            }
        }
        p = p + 1;
    }
    proof {
        assert(data@ =~= invert_spec(s));
        assert forall|j: int| 0 <= j < s.len() && j % 4 == 3 implies data@[j] == s[j] by {
            assert(data@[j] == invert_byte(s, j));
        }
    }
}

/// Inverting twice restores every byte exactly: `255 - (255 - c) == c`
/// with no clamping loss. This holds for a buffer of any length.
pub proof fn lemma_invert_involutive(s: Seq<u8>)
    ensures
        invert_spec(invert_spec(s)) == s,
{
    let f1 = invert_spec(s);
    assert forall|i: int| 0 <= i < s.len() implies invert_spec(f1)[i] == s[i] by {
        assert(f1[i] == invert_byte(s, i));
    }
    assert(invert_spec(f1) =~= s);
}

/// One byte of the brightness-adjusted image: `255 * amount / 100` is
/// added to each of R, G and B exactly, then clamped and truncated.
pub open spec fn brightness_byte(s: Seq<u8>, amount: int, i: int) -> u8 {
    if i % 4 == 3 {
        s[i]
    } else {
        scaled100_to_byte(100 * s[i] + 255 * amount)
    }
}

/// The whole brightness-adjusted buffer.
pub open spec fn brightness_spec(s: Seq<u8>, amount: int) -> Seq<u8> {
    Seq::new(s.len(), |i: int| brightness_byte(s, amount, i))
}

/// Adjust brightness by `amount` percent, in place.
pub fn brightness(data: &mut Vec<u8>, amount: i32)
    requires
        old(data)@.len() % 4 == 0,
        -100 <= amount <= 100,
    ensures
        final(data)@ == brightness_spec(old(data)@, amount as int),
        forall|j: int|
            0 <= j < final(data)@.len() && j % 4 == 3 ==> final(data)@[j] == old(data)@[j],
{
    let ghost s = old(data)@;
    let n = data.len();
    let pixels = n / 4;
    proof {
        vstd::arithmetic::div_mod::lemma_fundamental_div_mod(s.len() as int, 4);
    }
    let delta: i64 = 255 * (amount as i64);
    let mut p: usize = 0;
    while p < pixels
        invariant
            data@.len() == s.len(),
            s.len() == n,
            n == 4 * pixels,
            p <= pixels,
            delta == 255 * (amount as int),
            -100 <= amount <= 100,
            forall|j: int| 0 <= j < 4 * p ==> data@[j] == brightness_byte(s, amount as int, j),
            forall|j: int| 4 * p <= j < s.len() ==> data@[j] == s[j],
        decreases pixels - p,
    {
        let i = 4 * p;
        let r = data[i];
        let g = data[i + 1];
        let b = data[i + 2];
        data[i] = byte_from_scaled100(100 * (r as i64) + delta);
        data[i + 1] = byte_from_scaled100(100 * (g as i64) + delta);
        data[i + 2] = byte_from_scaled100(100 * (b as i64) + delta);
        proof {
            assert forall|j: int| 0 <= j < 4 * (p + 1) implies data@[j] == brightness_byte(
                s, amount as int, j) by {
                if i <= j < i + 4 {
                    vstd::arithmetic::div_mod::lemma_fundamental_div_mod_converse(
                        j, 4, p as int, j - i);
                }
            }
        }
        p = p + 1;
    }
    proof {
        assert(data@ =~= brightness_spec(s, amount as int));
        assert forall|j: int| 0 <= j < s.len() && j % 4 == 3 implies data@[j] == s[j] by {
            assert(data@[j] == brightness_byte(s, amount as int, j));
        }
    }
}

/// One byte of the contrast-adjusted image. The slope `(amount + 100) / 100`
/// and the intercept `128 * (100 - (amount + 100)) / 100` are applied
/// exactly in hundredths, then clamped and truncated.
pub open spec fn contrast_byte(s: Seq<u8>, amount: int, i: int) -> u8 {
    if i % 4 == 3 {
        s[i]
    } else {
        scaled100_to_byte(s[i] * (amount + 100) - 128 * amount)
    }
}

/// The whole contrast-adjusted buffer.
pub open spec fn contrast_spec(s: Seq<u8>, amount: int) -> Seq<u8> {
    Seq::new(s.len(), |i: int| contrast_byte(s, amount, i))
}

/// Adjust contrast by `amount` percent, in place.
pub fn contrast(data: &mut Vec<u8>, amount: i32)
    requires
        old(data)@.len() % 4 == 0,
        -100 <= amount <= 100,
    ensures
        final(data)@ == contrast_spec(old(data)@, amount as int),
        forall|j: int|
            0 <= j < final(data)@.len() && j % 4 == 3 ==> final(data)@[j] == old(data)@[j],
{
    let ghost s = old(data)@;
    let n = data.len();
    let pixels = n / 4;
    proof {
        vstd::arithmetic::div_mod::lemma_fundamental_div_mod(s.len() as int, 4);
    }
    let factor: i64 = (amount as i64) + 100;
    let intercept: i64 = 0 - 128 * (amount as i64);
    let mut p: usize = 0;
    while p < pixels
        invariant
            data@.len() == s.len(),
            s.len() == n,
            n == 4 * pixels,
            p <= pixels,
            factor == (amount as int) + 100,
            intercept == -128 * (amount as int),
            -100 <= amount <= 100,
            forall|j: int| 0 <= j < 4 * p ==> data@[j] == contrast_byte(s, amount as int, j),
            forall|j: int| 4 * p <= j < s.len() ==> data@[j] == s[j],
        decreases pixels - p,
    {
        let i = 4 * p;
        let r = data[i];
        let g = data[i + 1];
        let b = data[i + 2];
        proof {
            assert(0 <= (r as int) * ((amount as int) + 100) <= 51000) by (nonlinear_arith)
                requires
                    0 <= r as int <= 255,
                    -100 <= amount as int <= 100,
            ;
            assert(0 <= (g as int) * ((amount as int) + 100) <= 51000) by (nonlinear_arith)
                requires
                    0 <= g as int <= 255,
                    -100 <= amount as int <= 100,
            ;
            assert(0 <= (b as int) * ((amount as int) + 100) <= 51000) by (nonlinear_arith)
                requires
                    0 <= b as int <= 255,
                    -100 <= amount as int <= 100,
            ;
        }
        data[i] = byte_from_scaled100((r as i64) * factor + intercept);
        data[i + 1] = byte_from_scaled100((g as i64) * factor + intercept);
        data[i + 2] = byte_from_scaled100((b as i64) * factor + intercept);
        proof {
            assert forall|j: int| 0 <= j < 4 * (p + 1) implies data@[j] == contrast_byte(
                s, amount as int, j) by {
                if i <= j < i + 4 {
                    vstd::arithmetic::div_mod::lemma_fundamental_div_mod_converse(
                        j, 4, p as int, j - i);
                }
            }
        }
        p = p + 1;
    }
    proof {
        assert(data@ =~= contrast_spec(s, amount as int));
        assert forall|j: int| 0 <= j < s.len() && j % 4 == 3 implies data@[j] == s[j] by {
            assert(data@[j] == contrast_byte(s, amount as int, j));
        }
    }
}

} // verus!
