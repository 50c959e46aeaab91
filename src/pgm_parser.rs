//! Decoding of planar luma/chroma rasters into RGB.
//!
//! A raster file is the binary PGM magic number, one whitespace byte, optional `#`
//! comment lines, then width, height and maximum value in decimal, each
//! followed by one whitespace byte, then the binary body. The body's first
//! `2 * height / 3` rows of `width` bytes are the luma plane; each of the
//! next `height / 3` rows holds one row of the first chroma plane and one row
//! of the second, each `width / 2` bytes long.

use vstd::prelude::*;

use vstd::arithmetic::div_mod::lemma_fundamental_div_mod;

use crate::ascii::{
    is_digit, is_digit_byte, is_header_space, is_header_space_byte, DIGIT_FIVE, DIGIT_ZERO,
    HASH, LINE_FEED, UPPER_P,
};
use crate::image::{lemma_index_in_grid, RgbImage};

verus! {

/// Why a raster could not be decoded.
#[derive(Debug, Clone, Copy, PartialEq, Eq, Structural)]
pub enum DecodeError {
    /// The header does not follow the format, or gives a size that the chroma
    /// planes cannot cover.
    BadHeader,
    /// The body is shorter than the header announces.
    TruncatedData,
    /// The file could not be read.
    IOError,
}

/// The numbers of a raster header, and where the body starts.
#[derive(Debug, Clone, Copy, PartialEq, Eq, Structural)]
pub struct Header {
    pub width: usize,
    pub height: usize,
    pub max_val: usize,
    pub body: usize,
}

/// The position after the comment lines that start at `pos`; `in_comment`
/// says that `pos` is inside one. A comment runs from `#` through the next
/// line feed, or to the end.
pub open spec fn skip_comments(data: Seq<u8>, pos: nat, in_comment: bool) -> nat
    decreases data.len() - pos,
{
    if pos >= data.len() {
        pos
    } else if in_comment {
        skip_comments(data, pos + 1, data[pos as int] != LINE_FEED)
    } else if data[pos as int] == HASH {
        skip_comments(data, pos + 1, true)
    } else {
        pos
    }
}

/// The end of the run of digits that starts at `pos`.
pub open spec fn digits_end(data: Seq<u8>, pos: nat) -> nat
    decreases data.len() - pos,
{
    if pos < data.len() && is_digit(data[pos as int]) {
        digits_end(data, pos + 1)
    } else {
        pos
    }
}

/// The value of the decimal digits `data[a..b]`.
pub open spec fn digits_value(data: Seq<u8>, a: nat, b: nat) -> nat
    decreases b,
{
    if b <= a {
        0
    } else {
        digits_value(data, a, (b - 1) as nat) * 10 + (data[b - 1] - DIGIT_ZERO) as nat
    }
}

/// The number that starts at `pos` and where it ends, if digits start there
/// and their value fits in `usize`.
pub open spec fn number_at(data: Seq<u8>, pos: nat) -> Option<(nat, nat)> {
    let end = digits_end(data, pos);
    if end == pos || digits_value(data, pos, end) > usize::MAX {
        None
    } else {
        Some((digits_value(data, pos, end), end))
    }
}

/// A number at `pos` followed by one whitespace byte: its value and the
/// position after that byte.
pub open spec fn field_at(data: Seq<u8>, pos: nat) -> Option<(nat, nat)> {
    match number_at(data, pos) {
        Some((v, end)) => if end < data.len() && is_header_space(data[end as int]) {
            Some((v, end + 1))
        } else {
            None
        },
        None => None,
    }
}

/// The header of a raster file, if it has one.
pub open spec fn header_of(data: Seq<u8>) -> Option<Header> {
    if data.len() >= 3 && data[0] == UPPER_P && data[1] == DIGIT_FIVE && is_header_space(data[2]) {
        let p = skip_comments(data, 3, false);
        match field_at(data, p) {
            Some((w, after_width)) => match field_at(data, after_width) {
                Some((h, after_height)) => match field_at(data, after_height) {
                    Some((m, after_max)) => Some(
                        Header {
                            width: w as usize,
                            height: h as usize,
                            max_val: m as usize,
                            body: after_max as usize,
                        },
                    ),
                    None => None,
                },
                None => None,
            },
            None => None,
        }
    } else {
        None
    }
}

/// Rows of the luma plane.
pub open spec fn luma_height(height: nat) -> nat {
    2 * height / 3
}

/// Rows of each chroma plane.
pub open spec fn chroma_height(height: nat) -> nat {
    height / 3
}

/// Columns of each chroma plane.
pub open spec fn chroma_width(width: nat) -> nat {
    width / 2
}

/// The chroma planes cover the luma plane at half resolution in both
/// directions.
pub open spec fn chroma_covers(width: nat, height: nat) -> bool {
    width % 2 == 0 && (luma_height(height) + 1) / 2 <= chroma_height(height)
}

/// Bytes of the body that the planes take.
pub open spec fn body_len(width: nat, height: nat) -> nat {
    width * luma_height(height) + 2 * chroma_width(width) * chroma_height(height)
}

/// A sample clamped to `0..=255`.
pub open spec fn saturate(x: int) -> u8 {
    if x < 0 {
        0
    } else if x > 255 {
        255
    } else {
        x as u8
    }
}

/// Coefficients of the colour conversion, in millionths.
pub const COEF_SCALE: i64 = 1_000_000;
pub const COEF_R_V: i64 = 1_370_705;
pub const COEF_G_V: i64 = 698_001;
pub const COEF_G_U: i64 = 337_633;
pub const COEF_B_U: i64 = 1_732_446;

/// The RGB pixel of luma `y` and chroma `u`, `v`: with `Y' = y - 16`,
/// `U' = u - 128`, `V' = v - 128`, red is `Y' + 1.370705 V'`, green
/// `Y' - 0.698001 V' - 0.337633 U'` and blue `Y' + 1.732446 U'`, each rounded
/// down and saturated.
pub open spec fn yuv_to_rgb(y: u8, u: u8, v: u8) -> (u8, u8, u8) {
    let ys = (y - 16) * COEF_SCALE;
    let us = u - 128;
    let vs = v - 128;
    (
        saturate((ys + COEF_R_V * vs) / COEF_SCALE as int),
        saturate((ys - COEF_G_V * vs - COEF_G_U * us) / COEF_SCALE as int),
        saturate((ys + COEF_B_U * us) / COEF_SCALE as int),
    )
}

/// Pixel `(i, j)` of the raster whose header is `hdr`.
pub open spec fn decoded_pixel(data: Seq<u8>, hdr: Header, i: nat, j: nat) -> (u8, u8, u8) {
    let w = hdr.width as nat;
    let cw = chroma_width(w);
    let chroma = hdr.body + w * luma_height(hdr.height as nat);
    let row = chroma + (i / 2) * (2 * cw);
    yuv_to_rgb(
        data[hdr.body + i * w + j],
        data[row + j / 2],
        data[row + cw + j / 2],
    )
}

/// The decoded raster: `width` by `2 * height / 3` pixels.
pub open spec fn decoded_pixels(data: Seq<u8>, hdr: Header) -> Seq<(u8, u8, u8)> {
    let w = hdr.width as nat;
    Seq::new(
        w * luma_height(hdr.height as nat),
        |k: int| decoded_pixel(data, hdr, (k / w as int) as nat, (k % w as int) as nat),
    )
}

/// What decoding `data` gives.
pub open spec fn decode_result(data: Seq<u8>) -> Result<(nat, nat, Seq<(u8, u8, u8)>), DecodeError> {
    match header_of(data) {
        None => Err(DecodeError::BadHeader),
        Some(hdr) => if !chroma_covers(hdr.width as nat, hdr.height as nat) {
            Err(DecodeError::BadHeader)
        } else if data.len() < hdr.body + body_len(hdr.width as nat, hdr.height as nat) {
            Err(DecodeError::TruncatedData)
        } else {
            Ok(
                (
                    hdr.width as nat,
                    luma_height(hdr.height as nat),
                    decoded_pixels(data, hdr),
                ),
            )
        },
    }
}

/// The position after the comment lines that start at `pos`.
fn skip_comments_exec(data: &[u8], pos: usize) -> (r: usize)
    requires
        pos <= data@.len(),
    ensures
        r == skip_comments(data@, pos as nat, false),
        pos <= r <= data@.len(),
{
    let mut p = pos;
    let mut in_comment = false;
    while p < data.len() && (in_comment || data[p] == HASH)
        invariant
            pos <= p <= data@.len(),
            skip_comments(data@, pos as nat, false) == skip_comments(data@, p as nat, in_comment),
        decreases data@.len() - p,
    {
        in_comment = !in_comment || data[p] != LINE_FEED;
        p = p + 1;
    }
    p
}

/// Digit values only grow as digits are appended.
pub proof fn lemma_digits_value_grows(data: Seq<u8>, a: nat, i: nat, e: nat)
    requires
        a <= i <= e <= data.len(),
        forall|q: int| a <= q < e ==> is_digit(#[trigger] data[q]),
    ensures
        digits_value(data, a, i) <= digits_value(data, a, e),
    decreases e - i,
{
    if i < e {
        lemma_digits_value_grows(data, a, i, (e - 1) as nat);
    }
}

/// Digits from `pos` to `i` leave the end of the run where it was.
proof fn lemma_digits_end_step(data: Seq<u8>, pos: nat, i: nat)
    requires
        pos <= i < data.len(),
        is_digit(data[i as int]),
        digits_end(data, pos) == digits_end(data, i),
    ensures
        digits_end(data, pos) == digits_end(data, i + 1),
{
}

/// The number that starts at `pos`, and where it ends.
fn number_at_exec(data: &[u8], pos: usize) -> (r: Option<(usize, usize)>)
    requires
        pos <= data@.len(),
    ensures
        match number_at(data@, pos as nat) {
            Some((v, e)) => r == Some((v as usize, e as usize)) && e <= data@.len(),
            None => r.is_none(),
        },
{
    let mut i = pos;
    let mut value: usize = 0;
    let mut overflow = false;
    while i < data.len() && is_digit_byte(data[i])
        invariant
            pos <= i <= data@.len(),
            digits_end(data@, pos as nat) == digits_end(data@, i as nat),
            forall|q: int| pos <= q < i ==> is_digit(#[trigger] data@[q]),
            !overflow ==> value == digits_value(data@, pos as nat, i as nat),
            overflow ==> digits_value(data@, pos as nat, i as nat) > usize::MAX,
        decreases data@.len() - i,
    {
        let d = (data[i] - DIGIT_ZERO) as usize;
        proof {
            lemma_digits_end_step(data@, pos as nat, i as nat);
        }
        if !overflow {
            if value > (usize::MAX - d) / 10 {
                overflow = true;
            } else {
                value = value * 10 + d;
            }
        }
        i = i + 1;
    }
    if i == pos || overflow {
        None
    } else {
        Some((value, i))
    }
}

/// A number at `pos` followed by one whitespace byte.
fn field_at_exec(data: &[u8], pos: usize) -> (r: Option<(usize, usize)>)
    requires
        pos <= data@.len(),
    ensures
        match field_at(data@, pos as nat) {
            Some((v, e)) => r == Some((v as usize, e as usize)) && e <= data@.len(),
            None => r.is_none(),
        },
{
    match number_at_exec(data, pos) {
        Some((v, end)) => {
            if end < data.len() && is_header_space_byte(data[end]) {
                Some((v, end + 1))
            } else {
                None
            }
        },
        None => None,
    }
}

/// The header of a raster file, if it has one.
pub fn parse_header(data: &[u8]) -> (r: Option<Header>)
    ensures
        r == header_of(data@),
        r.is_some() ==> r.unwrap().body <= data@.len(),
{
    if data.len() < 3 || data[0] != UPPER_P || data[1] != DIGIT_FIVE || !is_header_space_byte(
        data[2],
    ) {
        return None;
    }
    let p = skip_comments_exec(data, 3);
    let (width, after_width) = match field_at_exec(data, p) {
        Some(f) => f,
        None => return None,
    };
    let (height, after_height) = match field_at_exec(data, after_width) {
        Some(f) => f,
        None => return None,
    };
    let (max_val, after_max) = match field_at_exec(data, after_height) {
        Some(f) => f,
        None => return None,
    };
    Some(Header { width, height, max_val, body: after_max })
}

/// `num` millionths, rounded down and saturated.
fn saturate_scaled(num: i64) -> (r: u8)
    ensures
        r == saturate((num as int) / (COEF_SCALE as int)),
{
    if num < 0 {
        assert(((num as int) / (COEF_SCALE as int)) < 0);
        0
    } else {
        let q = (num as u64) / (COEF_SCALE as u64);
        if q > 255 {
            255
        } else {
            q as u8
        }
    }
}

/// The RGB pixel of luma `y` and chroma `u`, `v`.
pub fn yuv_to_rgb_exec(y: u8, u: u8, v: u8) -> (p: (u8, u8, u8))
    ensures
        p == yuv_to_rgb(y, u, v),
{
    let ys = (y as i64 - 16) * COEF_SCALE;
    let us = u as i64 - 128;
    let vs = v as i64 - 128;
    (
        saturate_scaled(ys + COEF_R_V * vs),
        saturate_scaled(ys - COEF_G_V * vs - COEF_G_U * us),
        saturate_scaled(ys + COEF_B_U * us),
    )
}

/// `2 * h / 3`, computed without overflow.
fn luma_height_exec(h: usize) -> (r: usize)
    ensures
        r == luma_height(h as nat),
{
    h / 3 * 2 + (h % 3) * 2 / 3
}

/// Decodes a raster file into RGB: `width` by `2 * height / 3` pixels, each
/// converted from its luma sample and the chroma samples at half its row and
/// half its column.
pub fn decode(data: &[u8]) -> (r: Result<RgbImage, DecodeError>)
    ensures
        match decode_result(data@) {
            Ok((w, h, pixels)) => r.is_ok() && r.unwrap().spec_width() == w
                && r.unwrap().spec_height() == h && r.unwrap().pixels() == pixels,
            Err(e) => r == Err::<RgbImage, DecodeError>(e),
        },
{
    let hdr = match parse_header(data) {
        Some(hdr) => hdr,
        None => return Err(DecodeError::BadHeader),
    };
    let w = hdr.width;
    let h = hdr.height;
    let lh = luma_height_exec(h);
    let ch = h / 3;
    let cw = w / 2;
    if !(w % 2 == 0 && (lh + 1) / 2 <= ch) {
        return Err(DecodeError::BadHeader);
    }
    let avail = data.len() - hdr.body;
    proof {
        lemma_product_fits(w as nat, lh as nat);
        lemma_product_fits(w as nat, ch as nat);
        assert(2 * cw == w);
        assert(body_len(w as nat, h as nat) == w * lh + w * ch) by (nonlinear_arith)
            requires
                2 * cw == w,
                body_len(w as nat, h as nat) == w * lh + 2 * cw * ch,
        ;
    }
    let luma_bytes = (w as u128) * (lh as u128);
    if luma_bytes > avail as u128 {
        return Err(DecodeError::TruncatedData);
    }
    let chroma_bytes = (w as u128) * (ch as u128);
    if chroma_bytes > avail as u128 - luma_bytes {
        return Err(DecodeError::TruncatedData);
    }
    let n = luma_bytes as usize;
    let body = hdr.body;
    let chroma = body + n;
    let ghost dp = decoded_pixels(data@, hdr);
    let total = data.len();
    let mut pixels: Vec<(u8, u8, u8)> = Vec::with_capacity(n);
    let mut k: usize = 0;
    while k < n
        invariant
            total == data@.len(),
            n == w * lh,
            w % 2 == 0,
            2 * cw == w,
            (lh + 1) / 2 <= ch,
            lh == luma_height(h as nat),
            ch == chroma_height(h as nat),
            cw == chroma_width(w as nat),
            w == hdr.width,
            h == hdr.height,
            body == hdr.body,
            chroma == body + n,
            chroma + w * ch <= data@.len(),
            dp == decoded_pixels(data@, hdr),
            k <= n,
            pixels@.len() == k,
            forall|q: int| 0 <= q < k ==> #[trigger] pixels@[q] == dp[q],
        decreases n - k,
    {
        assert(w > 0) by (nonlinear_arith)
            requires
                k < w * lh,
                lh >= 0,
        ;
        let i = k / w;
        let j = k % w;
        proof {
            lemma_fundamental_div_mod(k as int, w as int);
            assert(i * w + j == k) by (nonlinear_arith)
                requires
                    k == w * i + j,
            ;
            assert(i < lh) by (nonlinear_arith)
                requires
                    k == w * i + j,
                    0 <= j,
                    k < w * lh,
                    w > 0,
            ;
            assert(i / 2 < ch);
            lemma_index_in_grid((i / 2) as int, j as int, w as int, ch as int);
            assert((i / 2) * w + cw + j / 2 < w * ch) by (nonlinear_arith)
                requires
                    i / 2 < ch,
                    j < w,
                    2 * cw == w,
                    w > 0,
            ;
            assert(0 <= (i / 2) * w) by (nonlinear_arith)
                requires
                    w > 0,
            ;
        }
        let row = chroma + (i / 2) * w;
        let p = yuv_to_rgb_exec(data[body + k], data[row + j / 2], data[row + cw + j / 2]);
        pixels.push(p);
        k = k + 1;
    }
    assert(pixels@ =~= dp);
    Ok(RgbImage::from_pixels(w, lh, pixels))
}

/// The product of two `usize` values fits in `u128`.
proof fn lemma_product_fits(a: nat, b: nat)
    requires
        a <= usize::MAX,
        b <= usize::MAX,
    ensures
        a * b <= u128::MAX,
{
    assert(a * b <= usize::MAX * usize::MAX) by (nonlinear_arith)
        requires
            a <= usize::MAX,
            b <= usize::MAX,
    ;
}

/// A raster whose luma samples are all 16 and whose chroma samples are all
/// 128 decodes to black: every pixel is `(0, 0, 0)`.
pub proof fn lemma_black_level_decodes_black(data: Seq<u8>)
    requires
        decode_result(data) is Ok,
        forall|q: int|
            header_of(data).unwrap().body <= q < header_of(data).unwrap().body + header_of(
                data,
            ).unwrap().width * luma_height(header_of(data).unwrap().height as nat) ==> #[trigger] data[q]
                == 16,
        forall|q: int|
            header_of(data).unwrap().body + header_of(data).unwrap().width * luma_height(
                header_of(data).unwrap().height as nat,
            ) <= q < header_of(data).unwrap().body + body_len(
                header_of(data).unwrap().width as nat,
                header_of(data).unwrap().height as nat,
            ) ==> #[trigger] data[q] == 128,
    ensures
        forall|k: int|
            0 <= k < decode_result(data).unwrap().2.len() ==> #[trigger] decode_result(
                data,
            ).unwrap().2[k] == (0u8, 0u8, 0u8),
{
    let hdr = header_of(data).unwrap();
    let w = hdr.width as nat;
    let lh = luma_height(hdr.height as nat);
    let ch = chroma_height(hdr.height as nat);
    let cw = chroma_width(w);
    assert(2 * cw == w);
    assert(body_len(w, hdr.height as nat) == w * lh + w * ch) by (nonlinear_arith)
        requires
            2 * cw == w,
            body_len(w, hdr.height as nat) == w * lh + 2 * cw * ch,
    ;
    assert forall|k: int| 0 <= k < w * lh implies #[trigger] decoded_pixels(data, hdr)[k] == (
        0u8,
        0u8,
        0u8,
    ) by {
        let i = k / w as int;
        let j = k % w as int;
        lemma_fundamental_div_mod(k, w as int);
        assert(i * w + j == k) by (nonlinear_arith)
            requires
                k == w * i + j,
        ;
        assert(i < lh) by (nonlinear_arith)
            requires
                k == w * i + j,
                0 <= j,
                k < w * lh,
        ;
        assert(i / 2 < ch);
        assert((i / 2) * w + cw + j / 2 < w * ch) by (nonlinear_arith)
            requires
                i / 2 < ch,
                0 <= j < w,
                2 * cw == w,
        ;
        assert(0 <= (i / 2) * w) by (nonlinear_arith)
            requires
                w > 0,
                i >= 0,
        ;
        let row = hdr.body + w * lh + (i / 2) * (2 * cw);
        assert(data[row + j / 2] == 128);
        assert(data[row + cw + j / 2] == 128);
        assert(data[hdr.body + i * w + j] == 16);
    }
}

} // verus!
