//! Shared sample and index helpers: exact fixed-point clamping, index
//! arithmetic for packed RGBA buffers, an integer square root, and the
//! fixed-point Gaussian kernel used by the convolution engine.

use vstd::prelude::*;
use vstd::arithmetic::div_mod::{
    lemma_div_is_ordered, lemma_div_multiples_vanish, lemma_fundamental_div_mod,
    lemma_fundamental_div_mod_converse, lemma_mod_pos_bound, lemma_multiply_divide_lt,
};
use vstd::arithmetic::mul::lemma_mul_is_commutative;

verus! {

/// Clamp an integer to the 8-bit sample range [0, 255].
pub open spec fn clamp255(v: int) -> int {
    if v < 0 {
        0
    } else if v > 255 {
        255
    } else {
        v
    }
}

/// A sample carried in hundredths, clamped to [0, 255] and truncated to a
/// byte. This matches clamping the exact rational value `t / 100` to
/// [0, 255] and then truncating it toward zero.
pub open spec fn scaled100_to_byte(t: int) -> u8 {
    if t <= 0 {
        0u8
    } else if t >= 25500 {
        255u8
    } else {
        (t / 100) as u8
    }
}

/// Exec counterpart of `scaled100_to_byte`.
pub fn byte_from_scaled100(t: i64) -> (r: u8)
    ensures
        r == scaled100_to_byte(t as int),
{
    if t <= 0 {
        0
    } else if t >= 25500 {
        255
    } else {
        ((t as u64) / 100) as u8
    }
}

/// Composing and decomposing the byte index of channel `c` of the pixel at
/// column `x`, row `y` of a `w` by `h` image.
pub proof fn lemma_pixel_index(w: int, h: int, x: int, y: int, c: int)
    requires
        0 <= x < w,
        0 <= y < h,
        0 <= c < 4,
    ensures
        0 <= (y * w + x) * 4 + c < w * h * 4,
        ((y * w + x) * 4 + c) / 4 == y * w + x,
        ((y * w + x) * 4 + c) % 4 == c,
        (y * w + x) / w == y,
        (y * w + x) % w == x,
{
    assert(0 <= y * w + x && y * w + x < w * h) by (nonlinear_arith)
        requires
            0 <= x < w,
            0 <= y < h,
    ;
    assert((y * w + x) * 4 + c < w * h * 4) by (nonlinear_arith)
        requires
            y * w + x < w * h,
            c < 4,
    ;
    lemma_fundamental_div_mod_converse((y * w + x) * 4 + c, 4, y * w + x, c);
    lemma_fundamental_div_mod_converse(y * w + x, w, y, x);
}

/// Every byte index of a `w` by `h` image splits uniquely into a channel,
/// a column and a row.
pub proof fn lemma_index_pixel(w: int, h: int, i: int)
    requires
        1 <= w,
        0 <= i < w * h * 4,
    ensures
        0 <= i % 4 < 4,
        0 <= i / 4 < w * h,
        0 <= (i / 4) % w < w,
        0 <= (i / 4) / w < h,
        i == (((i / 4) / w) * w + (i / 4) % w) * 4 + i % 4,
{
    assert(1 <= h) by (nonlinear_arith)
        requires
            0 <= i < w * h * 4,
            1 <= w,
    ;
    lemma_fundamental_div_mod(i, 4);
    lemma_mod_pos_bound(i, 4);
    assert(i <= w * h * 4 - 1);
    lemma_div_is_ordered(i, w * h * 4 - 1, 4);
    lemma_fundamental_div_mod_converse(w * h * 4 - 1, 4, w * h - 1, 3);
    assert(i / 4 <= w * h - 1);
    lemma_fundamental_div_mod(i / 4, w);
    lemma_mod_pos_bound(i / 4, w);
    lemma_div_is_ordered(i / 4, w * h - 1, w);
    assert(w * h - 1 == (h - 1) * w + (w - 1)) by (nonlinear_arith);
    lemma_fundamental_div_mod_converse(w * h - 1, w, h - 1, w - 1);
    assert((i / 4) / w <= h - 1);
    lemma_mul_is_commutative(w, (i / 4) / w);
    assert(i / 4 == ((i / 4) / w) * w + (i / 4) % w);
}

/// The integer square root, by halving the argument's bit width: the
/// greatest `r` with `r * r <= n`, as `lemma_sqrt_floor` shows.
pub open spec fn sqrt_floor(n: int) -> int
    decreases n,
{
    if n < 1 {
        0
    } else {
        let r = 2 * sqrt_floor(n / 4);
        if (r + 1) * (r + 1) <= n {
            r + 1
        } else {
            r
        }
    }
}

/// `sqrt_floor(n)` really is the rounded-down square root of `n`.
pub proof fn lemma_sqrt_floor(n: int)
    requires
        n >= 0,
    ensures
        sqrt_floor(n) >= 0,
        sqrt_floor(n) * sqrt_floor(n) <= n,
        n < (sqrt_floor(n) + 1) * (sqrt_floor(n) + 1),
    decreases n,
{
    if n >= 1 {
        let m = n / 4;
        lemma_sqrt_floor(m);
        let rm = sqrt_floor(m);
        let r = 2 * rm;
        lemma_fundamental_div_mod(n, 4);
        lemma_mod_pos_bound(n, 4);
        assert(r * r <= n) by (nonlinear_arith)
            requires
                rm * rm <= m,
                4 * m <= n,
                r == 2 * rm,
        ;
        assert(n < (r + 2) * (r + 2)) by (nonlinear_arith)
            requires
                m < (rm + 1) * (rm + 1),
                n <= 4 * m + 3,
                r == 2 * rm,
        ;
    }
}

/// `(367879 / 1000000)^q`, in millionths, by repeated truncating
/// multiplication: the fixed-point power of the reciprocal of Euler's
/// number that the Gaussian kernel weights are built from.
pub open spec fn pow_inv_e(q: nat) -> int
    decreases q,
{
    if q == 0 {
        1000000
    } else {
        pow_inv_e((q - 1) as nat) * 367879 / 1000000
    }
}

/// The truncating fixed-point power series `1 - u + u^2/2 - u^3/6 + u^4/24`
/// for `exp(-u)`, with `u` given in millionths of a unit.
pub open spec fn exp_frac(u: int) -> int {
    let t2 = u * u / 2000000;
    let t3 = t2 * u / 3000000;
    let t4 = t3 * u / 4000000;
    1000000 - u + t2 - t3 + t4
}

/// `exp(-num/den)` in millionths: the integer part of the exponent through
/// `pow_inv_e`, the fractional part through `exp_frac`, exponents of 30 and
/// beyond flushed to zero.
pub open spec fn exp_neg(num: int, den: int) -> int {
    let q = num / den;
    if q >= 30 {
        0
    } else {
        pow_inv_e(q as nat) * exp_frac(num % den * 1000000 / den) / 1000000
    }
}

/// The unnormalized Gaussian weight at offset `x` from the kernel center,
/// in millionths: `exp(-x^2 / (2 sigma^2))` with `sigma = radius / 3` and
/// the radius given in hundredths, so the exponent is
/// `45000 x^2 / radius_centi^2`.
pub open spec fn gauss_weight(x: int, radius_centi: int) -> int {
    exp_neg(45000 * x * x, radius_centi * radius_centi)
}

/// The kernel length for a radius in hundredths: the smallest odd integer
/// at or above twice the radius.
pub open spec fn kernel_len(radius_centi: int) -> int {
    let c = (2 * radius_centi + 99) / 100;
    if c % 2 == 0 {
        c + 1
    } else {
        c
    }
}

/// The whole fixed-point Gaussian kernel for a radius in hundredths.
pub open spec fn gaussian_kernel_spec(radius_centi: int) -> Seq<u64> {
    Seq::new(
        kernel_len(radius_centi) as nat,
        |i: int| gauss_weight(i - kernel_len(radius_centi) / 2, radius_centi) as u64,
    )
}

/// What the convolution engine needs of a kernel: an odd length of at
/// most 101 taps, every weight at most two million, and a positive
/// center weight.
pub open spec fn kernel_wf(k: Seq<u64>) -> bool {
    1 <= k.len() <= 101 && k.len() % 2 == 1 && (forall|i: int|
        0 <= i < k.len() ==> k[i] <= 2000000) && k[k.len() as int / 2] >= 1
}

/// The sum of the first `n` kernel weights.
pub open spec fn ksum(k: Seq<u64>, n: int) -> int
    decreases n,
{
    if n <= 0 {
        0
    } else {
        ksum(k, n - 1) + k[n - 1]
    }
}

/// The whole kernel sum is at least any single weight.
pub proof fn lemma_ksum_at_least(k: Seq<u64>, n: int, j: int)
    requires
        0 <= j < n <= k.len(),
    ensures
        ksum(k, n) >= k[j],
    decreases n,
{
    if j < n - 1 {
        lemma_ksum_at_least(k, n - 1, j);
    } else {
        lemma_ksum_bounds_nonneg(k, n - 1);
    }
}

/// A partial kernel sum is nonnegative.
pub proof fn lemma_ksum_bounds_nonneg(k: Seq<u64>, n: int)
    requires
        n <= k.len(),
    ensures
        ksum(k, n) >= 0,
    decreases n,
{
    if n > 0 {
        lemma_ksum_bounds_nonneg(k, n - 1);
    }
}

/// At offset zero the Gaussian weight is exactly one million.
pub proof fn lemma_gauss_center(radius_centi: int)
    requires
        radius_centi >= 1,
    ensures
        gauss_weight(0, radius_centi) == 1000000,
{
    let den = radius_centi * radius_centi;
    assert(radius_centi * radius_centi >= 1) by (nonlinear_arith)
        requires
            radius_centi >= 1,
    ;
    lemma_fundamental_div_mod_converse(0, den, 0, 0);
    assert(0int / den == 0);
    assert(0int % den == 0);
    assert(exp_frac(0) == 1000000);
    assert(pow_inv_e(0) == 1000000);
    assert(exp_neg(0, den) == 1000000 * 1000000 / 1000000);
    lemma_mul_is_commutative(1000000, 1000000);
    lemma_div_multiples_vanish(1000000, 1000000);
}

/// Exec counterpart of `exp_neg`: the fixed-point `exp(-num/den)`.
fn exp_neg_exec(num: u64, den: u64) -> (r: u64)
    requires
        1 <= den <= 25000000,
    ensures
        r == exp_neg(num as int, den as int),
        r <= 2000000,
{
    let q = num / den;
    if q >= 30 {
        return 0;
    }
    let mut a: u64 = 1000000;
    let mut j: u64 = 0;
    while j < q
        invariant
            j <= q,
            a == pow_inv_e(j as nat),
            a <= 1000000,
        decreases q - j,
    {
        proof {
            assert((a as int) * 367879 <= (a as int) * 1000000) by (nonlinear_arith)
                requires
                    0 <= a as int,
            ;
            lemma_div_is_ordered((a as int) * 367879, (a as int) * 1000000, 1000000);
            lemma_mul_is_commutative(a as int, 1000000);
            lemma_div_multiples_vanish(a as int, 1000000);
        }
        a = a * 367879 / 1000000;
        j = j + 1;
    }
    let f = num % den;
    proof {
        lemma_mod_pos_bound(num as int, den as int);
        assert((f as int) * 1000000 < (den as int) * 1000000) by (nonlinear_arith)
            requires
                0 <= f as int && (f as int) < (den as int),
        ;
        lemma_multiply_divide_lt((f as int) * 1000000, den as int, 1000000);
    }
    let u = f * 1000000 / den;
    proof {
        assert((u as int) * (u as int) <= 1000000000000) by (nonlinear_arith)
            requires
                0 <= u as int <= 1000000,
        ;
    }
    let t2 = u * u / 2000000;
    proof {
        assert((t2 as int) * (u as int) <= (t2 as int) * 3000000) by (nonlinear_arith)
            requires
                0 <= t2 as int,
                u as int <= 3000000,
        ;
        lemma_div_is_ordered((t2 as int) * (u as int), (t2 as int) * 3000000, 3000000);
        lemma_mul_is_commutative(t2 as int, 3000000);
        lemma_div_multiples_vanish(t2 as int, 3000000);
    }
    let t3 = t2 * u / 3000000;
    proof {
        assert((t3 as int) * (u as int) <= 600000000000) by (nonlinear_arith)
            requires
                0 <= t3 as int <= 600000,
                0 <= u as int <= 1000000,
        ;
    }
    let t4 = t3 * u / 4000000;
    let b = 1000000 - u + t2 - t3 + t4;
    proof {
        assert((a as int) * (b as int) <= 2000000000000) by (nonlinear_arith)
            requires
                0 <= a as int <= 1000000,
                0 <= b as int <= 2000000,
        ;
        lemma_div_is_ordered((a as int) * (b as int), 2000000000000, 1000000);
    }
    a * b / 1000000
}

/// Build the fixed-point Gaussian kernel for a radius in hundredths of a
/// pixel.
pub fn gaussian_kernel(radius_centi: u32) -> (k: Vec<u64>)
    requires
        1 <= radius_centi <= 5000,
    ensures
        k@ == gaussian_kernel_spec(radius_centi as int),
        kernel_wf(k@),
{
    let ghost rc = radius_centi as int;
    let ceil2r: u32 = (2 * radius_centi + 99) / 100;
    let size: u32 = if ceil2r % 2 == 0 {
        ceil2r + 1
    } else {
        ceil2r
    };
    let center: u32 = size / 2;
    proof {
        assert(size == kernel_len(rc));
        assert(1 <= size <= 101);
        assert(1 <= (radius_centi as int) * (radius_centi as int) <= 25000000) by (
        nonlinear_arith)
            requires
                1 <= radius_centi as int <= 5000,
        ;
    }
    let den: u64 = (radius_centi as u64) * (radius_centi as u64);
    let mut k: Vec<u64> = Vec::new();
    let mut i: u32 = 0;
    while i < size
        invariant
            1 <= radius_centi <= 5000,
            rc == radius_centi as int,
            den == rc * rc,
            1 <= den <= 25000000,
            size == kernel_len(rc),
            1 <= size <= 101,
            center == size / 2,
            i <= size,
            k@.len() == i,
            forall|t: int|
                0 <= t < i ==> k@[t] == (gauss_weight(t - (size as int) / 2, rc) as u64) && k@[t]
                    <= 2000000,
        decreases size - i,
    {
        let x: u64 = if i >= center {
            (i - center) as u64
        } else {
            (center - i) as u64
        };
        proof {
            assert(x as int <= 50);
            assert(45000 * (x as int) * (x as int) <= 112500000) by (nonlinear_arith)
                requires
                    0 <= x as int <= 50,
            ;
        }
        let num: u64 = 45000 * x * x;
        let wgt = exp_neg_exec(num, den);
        proof {
            assert(45000 * (x as int) * (x as int) == 45000 * ((i as int) - (center as int)) * ((
            i as int) - (center as int))) by (nonlinear_arith)
                requires
                    (x as int) == (i as int) - (center as int) || (x as int) == (center as int)
                        - (i as int),
            ;
        }
        k.push(wgt);
        i = i + 1;
    }
    proof {
        assert(k@ =~= gaussian_kernel_spec(rc));
        lemma_gauss_center(rc);
        assert(k@[k@.len() as int / 2] == gauss_weight(0, rc) as u64);
    }
    k
}

/// Sum the kernel weights: the fixed-point scale that the convolution
/// divides by.
pub fn kernel_total(k: &Vec<u64>) -> (t: u64)
    requires
        kernel_wf(k@),
    ensures
        t == ksum(k@, k@.len() as int),
        1 <= t <= 202000000,
{
    let mut acc: u64 = 0;
    let mut i: usize = 0;
    let n = k.len();
    while i < n
        invariant
            n == k@.len(),
            kernel_wf(k@),
            i <= n,
            acc == ksum(k@, i as int),
            acc <= i * 2000000,
        decreases n - i,
    {
        acc = acc + k[i];
        i = i + 1;
    }
    proof {
        lemma_ksum_at_least(k@, k@.len() as int, k@.len() as int / 2);
    }
    acc
}

/// The horizontal convolution sum at channel `c` of pixel (x, y) over the
/// first `n` kernel taps. Taps whose column falls outside the row are
/// skipped.
pub open spec fn hdot(s: Seq<u8>, w: int, y: int, x: int, c: int, k: Seq<u64>, n: int) -> int
    decreases n,
{
    if n <= 0 {
        0
    } else {
        let kx = x + (n - 1) - k.len() / 2;
        hdot(s, w, y, x, c, k, n - 1) + if 0 <= kx < w {
            (s[(y * w + kx) * 4 + c] as int) * (k[n - 1] as int)
        } else {
            0
        }
    }
}

/// The vertical convolution sum at channel `c` of pixel (x, y) over the
/// first `n` kernel taps. Taps whose row falls outside the column are
/// skipped.
pub open spec fn vdot(s: Seq<u8>, w: int, h: int, y: int, x: int, c: int, k: Seq<u64>, n: int) -> int
    decreases n,
{
    if n <= 0 {
        0
    } else {
        let ky = y + (n - 1) - k.len() / 2;
        vdot(s, w, h, y, x, c, k, n - 1) + if 0 <= ky < h {
            (s[(ky * w + x) * 4 + c] as int) * (k[n - 1] as int)
        } else {
            0
        }
    }
}

/// One byte of the horizontal blur pass: the tap-weighted sum divided by
/// the whole kernel sum, truncated and clamped; alpha is copied through.
pub open spec fn conv_h_byte(s: Seq<u8>, w: int, k: Seq<u64>, i: int) -> u8 {
    if i % 4 == 3 {
        s[i]
    } else {
        let y = (i / 4) / w;
        let x = (i / 4) % w;
        clamp255(hdot(s, w, y, x, i % 4, k, k.len() as int) / ksum(k, k.len() as int)) as u8
    }
}

/// The whole buffer after the horizontal pass.
pub open spec fn conv_h(s: Seq<u8>, w: int, k: Seq<u64>) -> Seq<u8> {
    Seq::new(s.len(), |i: int| conv_h_byte(s, w, k, i))
}

/// One byte of the vertical blur pass.
pub open spec fn conv_v_byte(s: Seq<u8>, w: int, h: int, k: Seq<u64>, i: int) -> u8 {
    if i % 4 == 3 {
        s[i]
    } else {
        let y = (i / 4) / w;
        let x = (i / 4) % w;
        clamp255(vdot(s, w, h, y, x, i % 4, k, k.len() as int) / ksum(k, k.len() as int)) as u8
    }
}

/// The whole buffer after the vertical pass.
pub open spec fn conv_v(s: Seq<u8>, w: int, h: int, k: Seq<u64>) -> Seq<u8> {
    Seq::new(s.len(), |i: int| conv_v_byte(s, w, h, k, i))
}

/// The separable two-pass convolution: horizontal, then vertical.
pub open spec fn blur_kernel_spec(s: Seq<u8>, w: int, h: int, k: Seq<u64>) -> Seq<u8> {
    conv_v(conv_h(s, w, k), w, h, k)
}

/// Gaussian blur with a radius in hundredths: the two-pass convolution
/// with the fixed-point Gaussian kernel of that radius.
pub open spec fn blur_gauss_spec(s: Seq<u8>, w: int, h: int, radius_centi: int) -> Seq<u8> {
    blur_kernel_spec(s, w, h, gaussian_kernel_spec(radius_centi))
}

/// The horizontal convolution pass, into a fresh buffer.
fn conv_pass_h(src: &Vec<u8>, width: u32, height: u32, k: &Vec<u64>, total: u64) -> (out: Vec<u8>)
    requires
        src@.len() == width * height * 4,
        kernel_wf(k@),
        total == ksum(k@, k@.len() as int),
        1 <= total,
    ensures
        out@ == conv_h(src@, width as int, k@),
{
    let ghost s = src@;
    let ghost w = width as int;
    let ghost h = height as int;
    let n = src.len();
    let klen = k.len();
    let radius = klen / 2;
    let mut out: Vec<u8> = Vec::new();
    let mut y: usize = 0;
    while y < height as usize
        invariant
            s == src@,
            n == s.len(),
            s.len() == w * h * 4,
            w == width as int && h == height as int,
            kernel_wf(k@),
            klen == k@.len(),
            radius == klen / 2,
            total == ksum(k@, k@.len() as int),
            1 <= total,
            y <= h,
            out@.len() == y * w * 4,
            forall|j: int| 0 <= j < out@.len() ==> out@[j] == conv_h_byte(s, w, k@, j),
        decreases h - y,
    {
        let mut x: usize = 0;
        while x < width as usize
            invariant
                s == src@,
                n == s.len(),
                s.len() == w * h * 4,
                w == width as int && h == height as int,
                kernel_wf(k@),
                klen == k@.len(),
                radius == klen / 2,
                total == ksum(k@, k@.len() as int),
                1 <= total,
                y < h,
                x <= w,
                out@.len() == (y * w + x) * 4,
                forall|j: int| 0 <= j < out@.len() ==> out@[j] == conv_h_byte(s, w, k@, j),
            decreases w - x,
        {
            proof {
                assert(4 * w <= w * h * 4) by (nonlinear_arith)
                    requires
                        1 <= h,
                        0 <= w,
                ;
            }
            let mut c: usize = 0;
            while c < 3
                invariant
                    s == src@,
                    n == s.len(),
                    s.len() == w * h * 4,
                    w == width as int && h == height as int,
                    kernel_wf(k@),
                    klen == k@.len(),
                    radius == klen / 2,
                    total == ksum(k@, k@.len() as int),
                    1 <= total,
                    y < h,
                    x < w,
                    c <= 3,
                    4 * w <= n,
                    out@.len() == (y * w + x) * 4 + c,
                    forall|j: int| 0 <= j < out@.len() ==> out@[j] == conv_h_byte(s, w, k@, j),
                decreases 3 - c,
            {
                let mut acc: u64 = 0;
                let mut t: usize = 0;
                while t < klen
                    invariant
                        s == src@,
                        n == s.len(),
                        s.len() == w * h * 4,
                        w == width as int && h == height as int,
                        kernel_wf(k@),
                        klen == k@.len(),
                        radius == klen / 2,
                        y < h,
                        x < w,
                        c < 3,
                        4 * w <= n,
                        t <= klen,
                        acc == hdot(s, w, y as int, x as int, c as int, k@, t as int),
                        acc <= t * 510000000,
                    decreases klen - t,
                {
                    if x + t >= radius && x + t - radius < width as usize {
                        let kx = x + t - radius;
                        proof {
                            lemma_pixel_index(w, h, kx as int, y as int, c as int);
                        }
                        let idx = (y * (width as usize) + kx) * 4 + c;
                        let sample = src[idx];
                        proof {
                            assert((sample as int) * (k@[t as int] as int) <= 510000000) by (
                            nonlinear_arith)
                                requires
                                    0 <= sample as int <= 255,
                                    0 <= k@[t as int] as int <= 2000000,
                            ;
                        }
                        acc = acc + (sample as u64) * k[t];
                    }
                    t = t + 1;
                }
                let v = acc / total;
                let b: u8 = if v > 255 {
                    255
                } else {
                    v as u8
                };
                out.push(b);
                proof {
                    lemma_pixel_index(w, h, x as int, y as int, c as int);
                    let ghost i = ((y as int) * w + (x as int)) * 4 + (c as int);
                    assert(out@[i] == conv_h_byte(s, w, k@, i));
                }
                c = c + 1;
            }
            proof {
                lemma_pixel_index(w, h, x as int, y as int, 3);
            }
            let ai = (y * (width as usize) + x) * 4 + 3;
            let alpha = src[ai];
            out.push(alpha);
            proof {
                let ghost i = ((y as int) * w + (x as int)) * 4 + 3;
                assert(out@[i] == conv_h_byte(s, w, k@, i));
            }
            x = x + 1;
        }
        proof {
            assert((y * w + w) * 4 == ((y + 1) * w) * 4) by (nonlinear_arith);
        }
        y = y + 1;
    }
    proof {
        assert(h * w * 4 == w * h * 4) by (nonlinear_arith);
        assert(out@ =~= conv_h(s, w, k@));
    }
    out
}

/// The vertical convolution pass, into a fresh buffer.
fn conv_pass_v(src: &Vec<u8>, width: u32, height: u32, k: &Vec<u64>, total: u64) -> (out: Vec<u8>)
    requires
        src@.len() == width * height * 4,
        kernel_wf(k@),
        total == ksum(k@, k@.len() as int),
        1 <= total,
    ensures
        out@ == conv_v(src@, width as int, height as int, k@),
{
    let ghost s = src@;
    let ghost w = width as int;
    let ghost h = height as int;
    let n = src.len();
    let klen = k.len();
    let radius = klen / 2;
    let mut out: Vec<u8> = Vec::new();
    let mut y: usize = 0;
    while y < height as usize
        invariant
            s == src@,
            n == s.len(),
            s.len() == w * h * 4,
            w == width as int && h == height as int,
            kernel_wf(k@),
            klen == k@.len(),
            radius == klen / 2,
            total == ksum(k@, k@.len() as int),
            1 <= total,
            y <= h,
            out@.len() == y * w * 4,
            forall|j: int| 0 <= j < out@.len() ==> out@[j] == conv_v_byte(s, w, h, k@, j),
        decreases h - y,
    {
        let mut x: usize = 0;
        while x < width as usize
            invariant
                s == src@,
                n == s.len(),
                s.len() == w * h * 4,
                w == width as int && h == height as int,
                kernel_wf(k@),
                klen == k@.len(),
                radius == klen / 2,
                total == ksum(k@, k@.len() as int),
                1 <= total,
                y < h,
                x <= w,
                out@.len() == (y * w + x) * 4,
                forall|j: int| 0 <= j < out@.len() ==> out@[j] == conv_v_byte(s, w, h, k@, j),
            decreases w - x,
        {
            proof {
                assert(4 * h <= w * h * 4) by (nonlinear_arith)
                    requires
                        1 <= w,
                        0 <= h,
                ;
            }
            let mut c: usize = 0;
            while c < 3
                invariant
                    s == src@,
                    n == s.len(),
                    s.len() == w * h * 4,
                    w == width as int && h == height as int,
                    kernel_wf(k@),
                    klen == k@.len(),
                    radius == klen / 2,
                    total == ksum(k@, k@.len() as int),
                    1 <= total,
                    y < h,
                    x < w,
                    c <= 3,
                    4 * h <= n,
                    out@.len() == (y * w + x) * 4 + c,
                    forall|j: int| 0 <= j < out@.len() ==> out@[j] == conv_v_byte(s, w, h, k@, j),
                decreases 3 - c,
            {
                let mut acc: u64 = 0;
                let mut t: usize = 0;
                while t < klen
                    invariant
                        s == src@,
                        n == s.len(),
                        s.len() == w * h * 4,
                        w == width as int && h == height as int,
                        kernel_wf(k@),
                        klen == k@.len(),
                        radius == klen / 2,
                        y < h,
                        x < w,
                        c < 3,
                        4 * h <= n,
                        t <= klen,
                        acc == vdot(s, w, h, y as int, x as int, c as int, k@, t as int),
                        acc <= t * 510000000,
                    decreases klen - t,
                {
                    if y + t >= radius && y + t - radius < height as usize {
                        let ky = y + t - radius;
                        proof {
                            lemma_pixel_index(w, h, x as int, ky as int, c as int);
                        }
                        let idx = (ky * (width as usize) + x) * 4 + c;
                        let sample = src[idx];
                        proof {
                            assert((sample as int) * (k@[t as int] as int) <= 510000000) by (
                            nonlinear_arith)
                                requires
                                    0 <= sample as int <= 255,
                                    0 <= k@[t as int] as int <= 2000000,
                            ;
                        }
                        acc = acc + (sample as u64) * k[t];
                    }
                    t = t + 1;
                }
                let v = acc / total;
                let b: u8 = if v > 255 {
                    255
                } else {
                    v as u8
                };
                out.push(b);
                proof {
                    lemma_pixel_index(w, h, x as int, y as int, c as int);
                    let ghost i = ((y as int) * w + (x as int)) * 4 + (c as int);
                    assert(out@[i] == conv_v_byte(s, w, h, k@, i));
                }
                c = c + 1;
            }
            proof {
                lemma_pixel_index(w, h, x as int, y as int, 3);
            }
            let ai = (y * (width as usize) + x) * 4 + 3;
            let alpha = src[ai];
            out.push(alpha);
            proof {
                let ghost i = ((y as int) * w + (x as int)) * 4 + 3;
                assert(out@[i] == conv_v_byte(s, w, h, k@, i));
            }
            x = x + 1;
        }
        proof {
            assert((y * w + w) * 4 == ((y + 1) * w) * 4) by (nonlinear_arith);
        }
        y = y + 1;
    }
    proof {
        assert(h * w * 4 == w * h * 4) by (nonlinear_arith);
        assert(out@ =~= conv_v(s, w, h, k@));
    }
    out
}

/// Separable Gaussian blur, in place: a horizontal pass into a scratch
/// buffer, then a vertical pass back over it. Alpha is copied through
/// both passes unchanged.
pub fn blur_gaussian(data: &mut Vec<u8>, width: u32, height: u32, radius_centi: u32)
    requires
        old(data)@.len() == width * height * 4,
        1 <= radius_centi <= 5000,
    ensures
        final(data)@ == blur_gauss_spec(
            old(data)@,
            width as int,
            height as int,
            radius_centi as int,
        ),
        forall|j: int|
            0 <= j < final(data)@.len() && j % 4 == 3 ==> final(data)@[j] == old(data)@[j],
{
    let ghost s = old(data)@;
    let k = gaussian_kernel(radius_centi);
    let total = kernel_total(&k);
    let tmp = conv_pass_h(data, width, height, &k, total);
    let out = conv_pass_v(&tmp, width, height, &k, total);
    *data = out;
    proof {
        assert forall|j: int| 0 <= j < s.len() && j % 4 == 3 implies data@[j] == s[j] by {
            assert(data@[j] == conv_v_byte(tmp@, width as int, height as int, k@, j));
            assert(tmp@[j] == conv_h_byte(s, width as int, k@, j));
        }
    }
}

/// With a single-tap kernel both passes divide each sample by the very
/// weight they multiplied it with, so a blur whose radius is at most half
/// a pixel returns every byte unchanged.
pub proof fn lemma_blur_small_radius_identity(s: Seq<u8>, w: int, h: int, rc: int)
    requires
        s.len() == w * h * 4,
        w >= 1,
        1 <= rc <= 50,
    ensures
        blur_gauss_spec(s, w, h, rc) == s,
{
    lemma_fundamental_div_mod_converse(2 * rc + 99, 100, 1, 2 * rc - 1);
    assert(kernel_len(rc) == 1);
    let k = gaussian_kernel_spec(rc);
    assert(k.len() == 1);
    lemma_gauss_center(rc);
    assert(k[0] == 1000000u64);
    assert(ksum(k, 0) == 0);
    assert(ksum(k, 1) == 1000000);
    assert forall|i: int| 0 <= i < s.len() implies conv_h(s, w, k)[i] == s[i] by {
        lemma_index_pixel(w, h, i);
        if i % 4 != 3 {
            let y = (i / 4) / w;
            let x = (i / 4) % w;
            assert(hdot(s, w, y, x, i % 4, k, 0) == 0);
            assert(hdot(s, w, y, x, i % 4, k, 1) == (s[i] as int) * 1000000);
            lemma_mul_is_commutative(s[i] as int, 1000000);
            lemma_div_multiples_vanish(s[i] as int, 1000000);
        }
    }
    assert(conv_h(s, w, k) =~= s);
    assert forall|i: int| 0 <= i < s.len() implies conv_v(s, w, h, k)[i] == s[i] by {
        lemma_index_pixel(w, h, i);
        if i % 4 != 3 {
            let y = (i / 4) / w;
            let x = (i / 4) % w;
            assert(vdot(s, w, h, y, x, i % 4, k, 0) == 0);
            assert(vdot(s, w, h, y, x, i % 4, k, 1) == (s[i] as int) * 1000000);
            lemma_mul_is_commutative(s[i] as int, 1000000);
            lemma_div_multiples_vanish(s[i] as int, 1000000);
        }
    }
    assert(conv_v(s, w, h, k) =~= s);
}

/// Exec counterpart of `sqrt_floor` for inputs below 2^62.
pub fn isqrt(n: u64) -> (r: u64)
    requires
        n < 0x4000000000000000,
    ensures
        r == sqrt_floor(n as int),
    decreases n,
{
    if n == 0 {
        0
    } else {
        let h = isqrt(n / 4);
        proof {
            lemma_sqrt_floor((n / 4) as int);
            assert(h < 0x40000000) by (nonlinear_arith)
                requires
                    (h as int) * (h as int) <= (n as int) / 4,
                    (n as int) / 4 < 0x1000000000000000,
                    h as int >= 0,
            ;
        }
        let c = 2 * h + 1;
        proof {
            assert((c as int) * (c as int) < 0x10000000000000000) by (nonlinear_arith)
                requires
                    0 < c as int <= 0x7fffffff,
            ;
        }
        if c * c <= n {
            c
        } else {
            2 * h
        }
    }
}

} // verus!
