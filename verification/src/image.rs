//! 8-bit RGB and grayscale images: binary PPM (P6) decoding, luma
//! conversion, nearest-neighbour resizing, thresholding and a checksum.
use vstd::prelude::*;

use std::time::Duration;
use crate::timing::{self, is_median_sample};
use crate::text::decimal_text;
use crate::display::{push_decimal, push_str, string_from_chars};

verus! {

/// Errors reported by image decoding and processing.
#[derive(Debug, Clone, Copy, PartialEq, Eq)]
pub enum ImageError {
    InvalidHeader,
    UnsupportedMaxValue(u32),
    UnexpectedEof,
    DimensionOverflow,
    InvalidResizeTarget,
}

/// The text of an unsupported maximum-value error, with the value in decimal.
fn max_value_message(value: u32) -> (s: String)
    ensures
        s@ == "only 8-bit PPM images are supported, got max value "@ + decimal_text(value as nat),
{
    let mut out: Vec<char> = Vec::new();
    push_str(&mut out, "only 8-bit PPM images are supported, got max value ");
    push_decimal(&mut out, value as u128);
    string_from_chars(&out)
}

/// The description of an image error.
pub open spec fn image_message(e: ImageError) -> Seq<char> {
    match e {
        ImageError::InvalidHeader => "invalid PPM header"@,
        ImageError::UnsupportedMaxValue(v) => "only 8-bit PPM images are supported, got max value "@ + decimal_text(
            v as nat,
        ),
        ImageError::UnexpectedEof => "unexpected end of image data"@,
        ImageError::DimensionOverflow => "image dimensions overflow addressable memory"@,
        ImageError::InvalidResizeTarget => "resize target dimensions must be non-zero"@,
    }
}

impl ImageError {
    /// Human-readable description of the error.
    pub fn message(&self) -> (r: String)
        ensures
            r@ == image_message(*self),
    {
        broadcast use vstd::string::to_string_from_display_ensures_for_str;

        match self {
            ImageError::InvalidHeader => "invalid PPM header".to_string(),
            ImageError::UnsupportedMaxValue(v) => max_value_message(*v),
            ImageError::UnexpectedEof => "unexpected end of image data".to_string(),
            ImageError::DimensionOverflow => "image dimensions overflow addressable memory".to_string(),
            ImageError::InvalidResizeTarget => "resize target dimensions must be non-zero".to_string(),
        }
    }
}

/// ASCII whitespace: space, tab, line feed, form feed, carriage return.
pub open spec fn is_ws(b: u8) -> bool {
    b == 32 || b == 9 || b == 10 || b == 12 || b == 13
}

fn is_ws_byte(b: u8) -> (r: bool)
    ensures
        r == is_ws(b),
{
    b == 32 || b == 9 || b == 10 || b == 12 || b == 13
}

/// First position at or after `p` that is not whitespace.
pub open spec fn skip_ws(b: Seq<u8>, p: int) -> int
    decreases b.len() - p,
{
    if 0 <= p < b.len() && is_ws(b[p]) {
        skip_ws(b, p + 1)
    } else {
        p
    }
}

/// First line feed at or after `p` (or the end).
pub open spec fn skip_line(b: Seq<u8>, p: int) -> int
    decreases b.len() - p,
{
    if 0 <= p < b.len() && b[p] != 10 {
        skip_line(b, p + 1)
    } else {
        p
    }
}

pub proof fn lemma_skip_ws(b: Seq<u8>, p: int)
    requires
        0 <= p,
    ensures
        p <= skip_ws(b, p),
        p <= b.len() ==> skip_ws(b, p) <= b.len(),
    decreases b.len() - p,
{
    if 0 <= p < b.len() && is_ws(b[p]) {
        lemma_skip_ws(b, p + 1);
    }
}

pub proof fn lemma_skip_line(b: Seq<u8>, p: int)
    requires
        0 <= p,
    ensures
        p <= skip_line(b, p),
        p <= b.len() ==> skip_line(b, p) <= b.len(),
    decreases b.len() - p,
{
    if 0 <= p < b.len() && b[p] != 10 {
        lemma_skip_line(b, p + 1);
    }
}

/// First position at or after `p` outside whitespace and `#` comments (a
/// comment runs to the end of its line).
pub open spec fn skip_blank(b: Seq<u8>, p: int) -> int
    decreases b.len() - p,
    when 0 <= p
{
    let q = skip_ws(b, p);
    if 0 <= q < b.len() && b[q] == 35 {
        proof {
            lemma_skip_ws(b, p);
            lemma_skip_line(b, q + 1);
        }
        skip_blank(b, skip_line(b, q))
    } else {
        q
    }
}

/// End of the token that starts at `p`: the first whitespace at or after it.
pub open spec fn token_end(b: Seq<u8>, p: int) -> int
    decreases b.len() - p,
{
    if 0 <= p < b.len() && !is_ws(b[p]) {
        token_end(b, p + 1)
    } else {
        p
    }
}

/// The next token after position `p`, as its start and end, if any.
pub open spec fn next_token(b: Seq<u8>, p: int) -> Option<(int, int)> {
    let s = skip_blank(b, p);
    if s >= b.len() {
        None
    } else {
        Some((s, token_end(b, s)))
    }
}

pub open spec fn is_digit(b: u8) -> bool {
    48 <= b <= 57
}

/// Decimal value of a string of digits.
pub open spec fn dec(s: Seq<u8>) -> int
    decreases s.len(),
{
    if s.len() == 0 {
        0
    } else {
        dec(s.drop_last()) * 10 + (s.last() - 48)
    }
}

/// First position at or after `i` that is not a digit.
pub open spec fn digits_end(s: Seq<u8>, i: int) -> int
    decreases s.len() - i,
{
    if 0 <= i < s.len() && is_digit(s[i]) {
        digits_end(s, i + 1)
    } else {
        i
    }
}

/// Reading a decimal header field: `InvalidHeader` for an empty field or for
/// a non-digit reached before the digits read so far overflow `usize`;
/// `DimensionOverflow` for such an overflow.
pub open spec fn parse_usize_spec(s: Seq<u8>) -> Result<usize, ImageError> {
    let k = digits_end(s, 0);
    if s.len() == 0 {
        Err(ImageError::InvalidHeader)
    } else if dec(s.take(k)) > usize::MAX {
        Err(ImageError::DimensionOverflow)
    } else if k < s.len() {
        Err(ImageError::InvalidHeader)
    } else {
        Ok(dec(s) as usize)
    }
}

/// Decoding a binary PPM: the tokens `P6`, width, height and maximum value
/// (read as a number and kept to its low 32 bits, which must be 255: only
/// 8-bit samples are supported), one whitespace byte, then
/// `width * height * 3` bytes of pixels. The result is the width, height and
/// pixel offset.
pub open spec fn decode_spec(b: Seq<u8>) -> Result<(usize, usize, int), ImageError> {
    match next_token(b, 0) {
        None => Err(ImageError::InvalidHeader),
        Some(t0) => if b.subrange(t0.0, t0.1) != seq![80u8, 54u8] {
            Err(ImageError::InvalidHeader)
        } else {
            match next_token(b, t0.1) {
                None => Err(ImageError::InvalidHeader),
                Some(t1) => match parse_usize_spec(b.subrange(t1.0, t1.1)) {
                    Err(e) => Err(e),
                    Ok(w) => match next_token(b, t1.1) {
                        None => Err(ImageError::InvalidHeader),
                        Some(t2) => match parse_usize_spec(b.subrange(t2.0, t2.1)) {
                            Err(e) => Err(e),
                            Ok(h) => match next_token(b, t2.1) {
                                None => Err(ImageError::InvalidHeader),
                                Some(t3) => match parse_usize_spec(b.subrange(t3.0, t3.1)) {
                                    Err(e) => Err(e),
                                    Ok(m) => if (m as int) % 0x1_0000_0000 != 255 {
                                        Err(ImageError::UnsupportedMaxValue(((m as int) % 0x1_0000_0000) as u32))
                                    } else {
                                        let p = if t3.1 < b.len() && is_ws(b[t3.1]) {
                                            t3.1 + 1
                                        } else {
                                            t3.1
                                        };
                                        if w * h * 3 > usize::MAX {
                                            Err(ImageError::DimensionOverflow)
                                        } else if p + w * h * 3 > b.len() {
                                            Err(ImageError::UnexpectedEof)
                                        } else {
                                            Ok((w, h, p))
                                        }
                                    },
                                },
                            },
                        },
                    },
                },
            }
        },
    }
}

proof fn lemma_token_end(b: Seq<u8>, p: int)
    requires
        0 <= p <= b.len(),
    ensures
        p <= token_end(b, p) <= b.len(),
    decreases b.len() - p,
{
    if 0 <= p < b.len() && !is_ws(b[p]) {
        lemma_token_end(b, p + 1);
    }
}

proof fn lemma_skip_blank(b: Seq<u8>, p: int)
    requires
        0 <= p <= b.len(),
    ensures
        p <= skip_blank(b, p) <= b.len(),
    decreases b.len() - p,
{
    lemma_skip_ws(b, p);
    let q = skip_ws(b, p);
    if 0 <= q < b.len() && b[q] == 35 {
        lemma_skip_line(b, q + 1);
        lemma_skip_line(b, q);
        lemma_skip_blank(b, skip_line(b, q));
    }
}

/// The next token of `b` after `pos`, as start and end positions.
fn read_token(b: &[u8], pos: usize) -> (r: Option<(usize, usize)>)
    requires
        pos <= b@.len(),
    ensures
        match next_token(b@, pos as int) {
            None => r is None,
            Some(t) => r matches Some(x) && x.0 == t.0 && x.1 == t.1 && t.0 <= t.1 <= b@.len(),
        },
{
    let n = b.len();
    let mut p = pos;
    loop
        invariant
            pos <= p <= n,
            n == b@.len(),
            skip_blank(b@, p as int) == skip_blank(b@, pos as int),
        ensures
            pos <= p <= n,
            p == skip_blank(b@, pos as int),
        decreases n - p,
    {
        let ghost p0 = p;
        while p < n && is_ws_byte(b[p])
            invariant
                p0 <= p <= n,
                n == b@.len(),
                skip_ws(b@, p as int) == skip_ws(b@, p0 as int),
            decreases n - p,
        {
            p += 1;
        }
        if p < n && b[p] == 35 {
            let ghost q = p;
            while p < n && b[p] != 10
                invariant
                    q <= p <= n,
                    n == b@.len(),
                    skip_line(b@, p as int) == skip_line(b@, q as int),
                decreases n - p,
            {
                p += 1;
            }
            proof {
                assert(skip_blank(b@, p0 as int) == skip_blank(b@, skip_line(b@, q as int)));
                assert(p > p0);
            }
        } else {
            proof {
                assert(skip_blank(b@, p0 as int) == p);
            }
            break;
        }
    }
    if p >= n {
        return None;
    }
    let start = p;
    while p < n && !is_ws_byte(b[p])
        invariant
            start <= p <= n,
            n == b@.len(),
            token_end(b@, p as int) == token_end(b@, start as int),
        decreases n - p,
    {
        p += 1;
    }
    proof {
        lemma_token_end(b@, start as int);
    }
    Some((start, p))
}

proof fn lemma_dec_monotone(s: Seq<u8>, i: int, j: int)
    requires
        0 <= i <= j <= s.len(),
        forall|k: int| 0 <= k < j ==> is_digit(#[trigger] s[k]),
    ensures
        0 <= dec(s.take(i)) <= dec(s.take(j)),
    decreases j - i,
{
    if i < j {
        lemma_dec_monotone(s, i, j - 1);
        assert(s.take(j).drop_last() =~= s.take(j - 1));
        assert(s.take(j).last() == s[j - 1]);
    } else {
        lemma_dec_nonneg(s.take(i), i);
    }
}

proof fn lemma_dec_nonneg(s: Seq<u8>, n: int)
    requires
        n == s.len(),
        forall|k: int| 0 <= k < s.len() ==> is_digit(#[trigger] s[k]),
    ensures
        dec(s) >= 0,
    decreases n,
{
    if s.len() > 0 {
        lemma_dec_nonneg(s.drop_last(), n - 1);
        assert(is_digit(s[s.len() - 1]));
    }
}

proof fn lemma_digits_end(s: Seq<u8>, i: int)
    requires
        0 <= i <= s.len(),
        forall|k: int| 0 <= k < i ==> is_digit(#[trigger] s[k]),
    ensures
        i <= digits_end(s, i) <= s.len(),
        digits_end(s, i) == digits_end(s, 0),
        forall|k: int| 0 <= k < digits_end(s, 0) ==> is_digit(#[trigger] s[k]),
        digits_end(s, 0) < s.len() ==> !is_digit(s[digits_end(s, 0)]),
    decreases i,
{
    lemma_digits_end_fwd(s, i);
    if i > 0 {
        lemma_digits_end(s, i - 1);
    }
}

proof fn lemma_digits_end_fwd(s: Seq<u8>, i: int)
    requires
        0 <= i <= s.len(),
    ensures
        i <= digits_end(s, i) <= s.len(),
        forall|k: int| i <= k < digits_end(s, i) ==> is_digit(#[trigger] s[k]),
        digits_end(s, i) < s.len() ==> !is_digit(s[digits_end(s, i)]),
    decreases s.len() - i,
{
    if 0 <= i < s.len() && is_digit(s[i]) {
        lemma_digits_end_fwd(s, i + 1);
    }
}

/// Read a decimal header field.
fn parse_usize(b: &[u8], start: usize, end: usize) -> (r: Result<usize, ImageError>)
    requires
        start <= end <= b@.len(),
    ensures
        r == parse_usize_spec(b@.subrange(start as int, end as int)),
{
    let ghost s = b@.subrange(start as int, end as int);
    if start == end {
        return Err(ImageError::InvalidHeader);
    }
    let mut value: usize = 0;
    let mut i: usize = start;
    while i < end
        invariant
            start <= i <= end,
            end <= b@.len(),
            s == b@.subrange(start as int, end as int),
            forall|k: int| 0 <= k < i - start ==> is_digit(#[trigger] s[k]),
            value == dec(s.take(i - start)),
        decreases end - i,
    {
        let c = b[i];
        proof {
            assert(s[i - start] == c);
        }
        if !(48 <= c && c <= 57) {
            proof {
                lemma_digits_end(s, i - start);
                lemma_digits_end_fwd(s, i - start);
            }
            return Err(ImageError::InvalidHeader);
        }
        let ghost t = s.take(i - start + 1);
        proof {
            assert(t.drop_last() =~= s.take(i - start));
            assert(t.last() == c);
        }
        let next = match value.checked_mul(10) {
            Some(v) => v.checked_add((c - 48) as usize),
            None => None,
        };
        match next {
            Some(v) => {
                value = v;
            },
            None => {
                proof {
                    assert forall|k: int| 0 <= k < i - start + 1 implies is_digit(#[trigger] s[k]) by {
                    }
                    lemma_digits_end(s, i - start + 1);
                    lemma_dec_monotone(s, i - start + 1, digits_end(s, 0));
                }
                return Err(ImageError::DimensionOverflow);
            },
        }
        i += 1;
    }
    proof {
        lemma_digits_end(s, s.len() as int);
        assert(s.take(s.len() as int) =~= s);
    }
    Ok(value)
}

/// An 8-bit RGB image stored row by row, three bytes per pixel.
#[derive(Debug, Clone, PartialEq, Eq)]
pub struct RgbImage {
    width: usize,
    height: usize,
    pixels: Vec<u8>,
}

/// An 8-bit grayscale image stored row by row, one byte per pixel.
#[derive(Debug, Clone, PartialEq, Eq)]
pub struct GrayImage {
    width: usize,
    height: usize,
    pixels: Vec<u8>,
}

impl RgbImage {
    pub closed spec fn width_spec(&self) -> int {
        self.width as int
    }

    pub closed spec fn height_spec(&self) -> int {
        self.height as int
    }

    /// The RGB bytes, row by row.
    pub closed spec fn bytes(&self) -> Seq<u8> {
        self.pixels@
    }

    pub open spec fn wf(&self) -> bool {
        self.bytes().len() == self.width_spec() * self.height_spec() * 3
    }

    /// An image of `width` by `height` pixels from RGB bytes: `DimensionOverflow`
    /// when `width * height * 3` overflows, `UnexpectedEof` when the byte count differs.
    pub fn from_rgb(width: usize, height: usize, pixels: Vec<u8>) -> (r: Result<RgbImage, ImageError>)
        ensures
            match r {
                Ok(img) => img.wf() && img.width_spec() == width && img.height_spec() == height && img.bytes() == pixels@,
                Err(e) => if width * height * 3 > usize::MAX {
                    e == ImageError::DimensionOverflow
                } else {
                    pixels@.len() != width * height * 3 && e == ImageError::UnexpectedEof
                },
            },
    {
        let expected = match width.checked_mul(height) {
            Some(v) => v.checked_mul(3),
            None => None,
        };
        let expected = match expected {
            Some(v) => v,
            None => {
                proof {
                    if width * height <= usize::MAX {
                        assert(width * height * 3 > usize::MAX);
                    } else {
                        assert(width * height * 3 >= width * height) by (nonlinear_arith)
                            requires
                                width * height >= 0,
                        ;
                    }
                }
                return Err(ImageError::DimensionOverflow);
            },
        };
        if pixels.len() != expected {
            return Err(ImageError::UnexpectedEof);
        }
        Ok(RgbImage { width, height, pixels })
    }

    /// Decode a binary PPM (P6) image with 8-bit samples; header fields may be
    /// separated by whitespace and `#` comments. The maximum value is kept to
    /// its low 32 bits before it is compared with 255.
    pub fn decode_ppm(bytes: &[u8]) -> (r: Result<RgbImage, ImageError>)
        ensures
            match decode_spec(bytes@) {
                Err(e) => r == Err::<RgbImage, ImageError>(e),
                Ok(t) => r matches Ok(img) && img.wf() && img.width_spec() == t.0 && img.height_spec() == t.1
                    && img.bytes() == bytes@.subrange(t.2, t.2 + t.0 * t.1 * 3),
            },
    {
        let n = bytes.len();
        let t0 = match read_token(bytes, 0) {
            Some(t) => t,
            None => {
                return Err(ImageError::InvalidHeader);
            },
        };
        if !(t0.1 - t0.0 == 2 && bytes[t0.0] == 80 && bytes[t0.0 + 1] == 54) {
            proof {
                let m = seq![80u8, 54u8];
                assert(m.len() == 2 && m[0] == 80u8 && m[1] == 54u8);
                let sub = bytes@.subrange(t0.0 as int, t0.1 as int);
                if sub == m {
                    assert(sub.len() == 2);
                    assert(sub[0] == bytes@[t0.0 as int]);
                    assert(sub[1] == bytes@[t0.0 + 1]);
                }
            }
            return Err(ImageError::InvalidHeader);
        }
        proof {
            assert(bytes@.subrange(t0.0 as int, t0.1 as int) =~= seq![80u8, 54u8]);
        }
        let t1 = match read_token(bytes, t0.1) {
            Some(t) => t,
            None => {
                return Err(ImageError::InvalidHeader);
            },
        };
        let width = parse_usize(bytes, t1.0, t1.1)?;
        let t2 = match read_token(bytes, t1.1) {
            Some(t) => t,
            None => {
                return Err(ImageError::InvalidHeader);
            },
        };
        let height = parse_usize(bytes, t2.0, t2.1)?;
        let t3 = match read_token(bytes, t2.1) {
            Some(t) => t,
            None => {
                return Err(ImageError::InvalidHeader);
            },
        };
        let max_value: u32 = ((parse_usize(bytes, t3.0, t3.1)? as u64) % 0x1_0000_0000u64) as u32;
        if max_value != 255 {
            return Err(ImageError::UnsupportedMaxValue(max_value));
        }
        let mut pos = t3.1;
        if pos < n && is_ws_byte(bytes[pos]) {
            pos += 1;
        }
        let expected = match width.checked_mul(height) {
            Some(v) => v.checked_mul(3),
            None => None,
        };
        let expected = match expected {
            Some(v) => v,
            None => {
                proof {
                    if width * height <= usize::MAX {
                        assert(width * height * 3 > usize::MAX);
                    } else {
                        assert(width * height * 3 >= width * height) by (nonlinear_arith)
                            requires
                                width * height >= 0,
                        ;
                    }
                }
                return Err(ImageError::DimensionOverflow);
            },
        };
        if expected > n - pos {
            return Err(ImageError::UnexpectedEof);
        }
        let data = vstd::slice::slice_to_vec(vstd::slice::slice_subrange(bytes, pos, pos + expected));
        RgbImage::from_rgb(width, height, data)
    }

    pub fn width(&self) -> (r: usize)
        ensures
            r == self.width_spec(),
    {
        self.width
    }

    pub fn height(&self) -> (r: usize)
        ensures
            r == self.height_spec(),
    {
        self.height
    }

    pub fn pixels(&self) -> (r: &[u8])
        ensures
            r@ == self.bytes(),
    {
        self.pixels.as_slice()
    }
}

/// A coordinate below `n` scaled from `n` to `m` steps stays below `m`.
proof fn lemma_scaled_index(a: int, n: int, m: int, total: int, w: int, k: int)
    requires
        n > 0,
        m > 0,
        (total == 0 && w == 1 && k == 0 && 0 <= a < n) || (total == w * n && w > 0 && 0 <= k < total && a == k / w),
    ensures
        0 <= a < n,
        0 <= a * m <= n * m,
        0 <= a * m / n < m,
{
    if total != 0 {
        assert(0 <= k / w < n) by (nonlinear_arith)
            requires
                0 <= k < w * n,
                w > 0,
        ;
    }
    assert(0 <= a * m <= n * m) by (nonlinear_arith)
        requires
            0 <= a < n,
            m > 0,
    ;
    assert(0 <= a * m / n < m) by (nonlinear_arith)
        requires
            0 <= a < n,
            m > 0,
            n > 0,
    ;
}

/// Luma of an RGB triple: `(77 r + 150 g + 29 b + 128) / 256`.
pub open spec fn luma(r: u8, g: u8, b: u8) -> u8 {
    ((77 * r + 150 * g + 29 * b + 128) / 256) as u8
}

/// The luma of a pixel is the rounded weighted sum of its channels with the
/// weights 77, 150 and 29 (out of 256): it is the largest value whose 256
/// multiple does not exceed `77 r + 150 g + 29 b + 128`. The weights add up
/// to 256, so a gray pixel keeps its level (black stays 0, white stays 255),
/// and raising any one channel never lowers the luma.
pub proof fn lemma_luma_weights(r: u8, g: u8, b: u8)
    ensures
        256 * (luma(r, g, b) as int) <= 77 * r + 150 * g + 29 * b + 128 < 256 * (luma(r, g, b) as int) + 256,
        luma(r, r, r) == r,
        r < 255 ==> luma(r, g, b) <= luma((r + 1) as u8, g, b),
        g < 255 ==> luma(r, g, b) <= luma(r, (g + 1) as u8, b),
        b < 255 ==> luma(r, g, b) <= luma(r, g, (b + 1) as u8),
{
    let w = 77 * r + 150 * g + 29 * b + 128;
    assert(0 <= w <= 65408);
    assert(w / 256 <= 255);
    assert(luma(r, g, b) as int == w / 256);
    assert((256 * r + 128) / 256 == r as int);
    assert(luma(r, r, r) as int == (256 * r + 128) / 256);
    if r < 255 {
        assert(luma((r + 1) as u8, g, b) as int == (w + 77) / 256);
        assert(w / 256 <= (w + 77) / 256);
    }
    if g < 255 {
        assert(luma(r, (g + 1) as u8, b) as int == (w + 150) / 256);
        assert(w / 256 <= (w + 150) / 256);
    }
    if b < 255 {
        assert(luma(r, g, (b + 1) as u8) as int == (w + 29) / 256);
        assert(w / 256 <= (w + 29) / 256);
    }
}

/// Position-weighted checksum: the sum of `(i + 1) * s[i]`, wrapping at 2^64.
pub open spec fn weighted_sum(s: Seq<u8>) -> u64
    decreases s.len(),
{
    if s.len() == 0 {
        0
    } else {
        vstd::wrapping::u64_specs::wrapping_add(weighted_sum(s.drop_last()), (s.len() * s.last()) as u64)
    }
}

impl RgbImage {
    /// The grayscale image with each pixel's luma.
    pub fn grayscale(&self) -> (r: GrayImage)
        requires
            self.wf(),
        ensures
            r.wf(),
            r.width_spec() == self.width_spec(),
            r.height_spec() == self.height_spec(),
            forall|i: int|
                0 <= i < r.bytes().len() ==> #[trigger] r.bytes()[i] == luma(
                    self.bytes()[3 * i],
                    self.bytes()[3 * i + 1],
                    self.bytes()[3 * i + 2],
                ),
            forall|i: int|
                0 <= i < r.bytes().len() ==> 256 * (#[trigger] r.bytes()[i] as int) <= 77 * self.bytes()[3 * i] + 150
                    * self.bytes()[3 * i + 1] + 29 * self.bytes()[3 * i + 2] + 128 < 256 * (r.bytes()[i] as int) + 256,
    {
        let count = self.pixels.len() / 3;
        assert(self.pixels@.len() == self.pixels.len());
        let mut out: Vec<u8> = Vec::new();
        let mut i: usize = 0;
        while i < count
            invariant
                self.wf(),
                count * 3 == self.pixels@.len(),
                self.pixels@.len() <= usize::MAX,
                i <= count,
                out@.len() == i,
                forall|k: int|
                    0 <= k < i ==> #[trigger] out@[k] == luma(self.pixels@[3 * k], self.pixels@[3 * k + 1], self.pixels@[3 * k + 2]),
            decreases count - i,
        {
            proof {
                assert(3 * i + 2 < count * 3) by (nonlinear_arith)
                    requires
                        i < count,
                ;
            }
            let r = self.pixels[3 * i] as u32;
            let g = self.pixels[3 * i + 1] as u32;
            let b = self.pixels[3 * i + 2] as u32;
            let weighted: u32 = 77 * r + 150 * g + 29 * b + 128;
            proof {
                assert(weighted >> 8u32 == weighted / 256) by (bit_vector);
            }
            let v = (weighted >> 8u32) as u8;
            out.push(v);
            i += 1;
        }
        proof {
            assert(count == self.width * self.height) by (nonlinear_arith)
                requires
                    count * 3 == self.width * self.height * 3,
            ;
            assert forall|k: int| 0 <= k < out@.len() implies 256 * (#[trigger] out@[k] as int) <= 77 * self.pixels@[3
                * k] + 150 * self.pixels@[3 * k + 1] + 29 * self.pixels@[3 * k + 2] + 128 < 256 * (out@[k] as int) + 256 by {
                lemma_luma_weights(self.pixels@[3 * k], self.pixels@[3 * k + 1], self.pixels@[3 * k + 2]);
            }
        }
        GrayImage { width: self.width, height: self.height, pixels: out }
    }
}

impl GrayImage {
    pub closed spec fn width_spec(&self) -> int {
        self.width as int
    }

    pub closed spec fn height_spec(&self) -> int {
        self.height as int
    }

    /// The pixel values, row by row.
    pub closed spec fn bytes(&self) -> Seq<u8> {
        self.pixels@
    }

    pub open spec fn wf(&self) -> bool {
        self.bytes().len() == self.width_spec() * self.height_spec()
    }

    /// An image of `width` by `height` pixels from its values: `DimensionOverflow`
    /// when `width * height` overflows, `UnexpectedEof` when the count differs.
    pub fn from_gray(width: usize, height: usize, pixels: Vec<u8>) -> (r: Result<GrayImage, ImageError>)
        ensures
            match r {
                Ok(img) => img.wf() && img.width_spec() == width && img.height_spec() == height && img.bytes() == pixels@,
                Err(e) => if width * height > usize::MAX {
                    e == ImageError::DimensionOverflow
                } else {
                    pixels@.len() != width * height && e == ImageError::UnexpectedEof
                },
            },
    {
        let expected = match width.checked_mul(height) {
            Some(v) => v,
            None => {
                return Err(ImageError::DimensionOverflow);
            },
        };
        if pixels.len() != expected {
            return Err(ImageError::UnexpectedEof);
        }
        Ok(GrayImage { width, height, pixels })
    }

    pub fn width(&self) -> (r: usize)
        ensures
            r == self.width_spec(),
    {
        self.width
    }

    pub fn height(&self) -> (r: usize)
        ensures
            r == self.height_spec(),
    {
        self.height
    }

    pub fn pixels(&self) -> (r: &[u8])
        ensures
            r@ == self.bytes(),
    {
        self.pixels.as_slice()
    }

    /// Nearest-neighbour resize to `width` by `height`: target pixel `(x, y)`
    /// takes source pixel `(x * w / width, y * h / height)`.
    /// `InvalidResizeTarget` for a zero target dimension.
    pub fn resize_nearest(&self, width: usize, height: usize) -> (r: Result<GrayImage, ImageError>)
        requires
            self.wf(),
            width > 0 && height > 0 ==> self.width_spec() > 0 && self.height_spec() > 0,
            width * height <= usize::MAX,
            width * self.width_spec() <= usize::MAX,
            height * self.height_spec() <= usize::MAX,
        ensures
            match r {
                Ok(img) => {
                    &&& width > 0 && height > 0
                    &&& img.wf()
                    &&& img.width_spec() == width
                    &&& img.height_spec() == height
                    &&& forall|i: int|
                        0 <= i < img.bytes().len() ==> #[trigger] img.bytes()[i] == self.bytes()[(i / width as int
                            * self.height_spec() / height as int) * self.width_spec() + (i % width as int) * self.width_spec()
                            / width as int]
                },
                Err(e) => (width == 0 || height == 0) && e == ImageError::InvalidResizeTarget,
            },
    {
        if width == 0 || height == 0 {
            return Err(ImageError::InvalidResizeTarget);
        }
        let total = width * height;
        assert(self.pixels@.len() == self.pixels.len());
        let mut out: Vec<u8> = Vec::new();
        let mut k: usize = 0;
        while k < total
            invariant
                self.wf(),
                self.pixels@.len() <= usize::MAX,
                width > 0,
                height > 0,
                self.width > 0,
                self.height > 0,
                total == width * height,
                width * self.width <= usize::MAX,
                height * self.height <= usize::MAX,
                k <= total,
                out@.len() == k,
                forall|i: int|
                    0 <= i < k ==> #[trigger] out@[i] == self.pixels@[(i / width as int * self.height / height as int)
                        * self.width + (i % width as int) * self.width / width as int],
            decreases total - k,
        {
            let y = k / width;
            let x = k % width;
            proof {
                lemma_scaled_index(y as int, height as int, self.height as int, total as int, width as int, k as int);
                lemma_scaled_index(x as int, width as int, self.width as int, 0, 1, 0);
            }
            let src_y = y * self.height / height;
            let src_x = x * self.width / width;
            proof {
                assert(src_y * self.width + src_x < self.width * self.height) by (nonlinear_arith)
                    requires
                        src_y < self.height,
                        src_x < self.width,
                ;
            }
            out.push(self.pixels[src_y * self.width + src_x]);
            k += 1;
        }
        Ok(GrayImage { width, height, pixels: out })
    }

    /// Pixels at or above `threshold` become 255, the others 0.
    pub fn threshold(&self, threshold: u8) -> (r: GrayImage)
        requires
            self.wf(),
        ensures
            r.wf(),
            r.width_spec() == self.width_spec(),
            r.height_spec() == self.height_spec(),
            r.bytes() == Seq::new(self.bytes().len(), |i: int| if self.bytes()[i] >= threshold { 255u8 } else { 0u8 }),
    {
        let n = self.pixels.len();
        let mut out: Vec<u8> = Vec::new();
        let mut i: usize = 0;
        while i < n
            invariant
                n == self.pixels@.len(),
                i <= n,
                out@ == Seq::new(i as nat, |k: int| if self.pixels@[k] >= threshold { 255u8 } else { 0u8 }),
            decreases n - i,
        {
            let v: u8 = if self.pixels[i] >= threshold { 255 } else { 0 };
            out.push(v);
            i += 1;
            assert(out@ =~= Seq::new(i as nat, |k: int| if self.pixels@[k] >= threshold { 255u8 } else { 0u8 }));
        }
        GrayImage { width: self.width, height: self.height, pixels: out }
    }

    /// The position-weighted checksum of the pixel values.
    pub fn checksum(&self) -> (r: u64)
        requires
            self.bytes().len() * 255 <= u64::MAX,
        ensures
            r == weighted_sum(self.bytes()),
    {
        let n = self.pixels.len();
        let mut acc: u64 = 0;
        let mut i: usize = 0;
        while i < n
            invariant
                n == self.pixels@.len(),
                n * 255 <= u64::MAX,
                i <= n,
                acc == weighted_sum(self.pixels@.take(i as int)),
            decreases n - i,
        {
            let ghost t = self.pixels@.take(i as int + 1);
            assert(t.drop_last() =~= self.pixels@.take(i as int));
            assert(t.last() == self.pixels@[i as int]);
            let v = self.pixels[i] as u64;
            proof {
                assert((i + 1) * v <= n * 255) by (nonlinear_arith)
                    requires
                        i < n,
                        v <= 255,
                ;
            }
            let term = (i as u64 + 1) * v;
            acc = acc.wrapping_add(term);
            i += 1;
        }
        assert(self.pixels@.take(n as int) =~= self.pixels@);
        acc
    }
}

/// The median of non-empty timing samples, as [`crate::timing::median_duration`]
/// computes it.
pub fn median_duration(samples: Vec<Duration>) -> (r: Duration)
    requires
        samples.len() > 0,
    ensures
        is_median_sample(samples@, r),
{
    timing::median_duration(samples)
}

} // verus!
