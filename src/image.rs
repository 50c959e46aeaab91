//! Decoded RGB rasters.

use vstd::prelude::*;

use crate::ascii::{DIGIT_ZERO, LINE_FEED, SPACE, UPPER_P};

verus! {

/// One RGB sample triple.
#[derive(Debug, Clone, Copy, PartialEq, Eq, Structural)]
pub struct Rgb {
    pub r: u8,
    pub g: u8,
    pub b: u8,
}

impl Rgb {
    pub fn new(r: u8, g: u8, b: u8) -> (p: Self)
        ensures
            p == (Rgb { r, g, b }),
    {
        Self { r, g, b }
    }
}

/// A row-major RGB raster of `width` by `height` pixels.
pub struct RgbImage {
    data: Vec<(u8, u8, u8)>,
    width: usize,
    height: usize,
}

/// The pixels of a `width`-wide raster laid out as bytes, `channels` bytes per
/// pixel: red, green, blue, then `255` for an alpha channel.
pub open spec fn channel_bytes(pixels: Seq<(u8, u8, u8)>, channels: nat) -> Seq<u8> {
    Seq::new(
        pixels.len() * channels,
        |k: int|
            {
                let p = pixels[k / channels as int];
                let c = k % channels as int;
                if c == 0 {
                    p.0
                } else if c == 1 {
                    p.1
                } else if c == 2 {
                    p.2
                } else {
                    255u8
                }
            },
    )
}

/// The decimal digits of `n`, most significant first, in ASCII.
pub open spec fn decimal(n: nat) -> Seq<u8>
    decreases n,
{
    if n < 10 {
        seq![(DIGIT_ZERO + n) as u8]
    } else {
        decimal(n / 10).push((DIGIT_ZERO + n % 10) as u8)
    }
}

/// The text of one pixel in a plain PPM body: its three samples, each
/// followed by a space.
pub open spec fn pixel_text(p: (u8, u8, u8)) -> Seq<u8> {
    decimal(p.0 as nat).push(SPACE) + decimal(p.1 as nat).push(SPACE) + decimal(p.2 as nat).push(
        SPACE,
    )
}

/// Longest line of a plain PPM body.
pub const PPM_LINE_LIMIT: usize = 70;

/// The body of a plain PPM text for `pixels`, and the length of its last line.
/// A pixel's text starts a new line where it would make the current one longer
/// than `PPM_LINE_LIMIT`.
pub open spec fn ppm_body(pixels: Seq<(u8, u8, u8)>) -> (Seq<u8>, nat)
    decreases pixels.len(),
{
    if pixels.len() == 0 {
        (seq![], 0)
    } else {
        let (text, column) = ppm_body(pixels.drop_last());
        let t = pixel_text(pixels.last());
        if column + t.len() > PPM_LINE_LIMIT {
            (text.push(LINE_FEED) + t, t.len())
        } else {
            (text + t, column + t.len())
        }
    }
}

/// The header of a plain PPM text: its magic number, the size, and the maximum
/// sample value `255`, each on its own line.
pub open spec fn ppm_header(width: nat, height: nat) -> Seq<u8> {
    seq![UPPER_P, (DIGIT_ZERO + 3) as u8, LINE_FEED] + decimal(width).push(SPACE) + decimal(
        height,
    ).push(LINE_FEED) + decimal(255).push(LINE_FEED)
}

/// A whole plain PPM text.
pub open spec fn ppm_text(width: nat, height: nat, pixels: Seq<(u8, u8, u8)>) -> Seq<u8> {
    ppm_header(width, height) + ppm_body(pixels).0
}

/// Every byte is ASCII.
pub open spec fn all_ascii(s: Seq<u8>) -> bool {
    forall|i: int| 0 <= i < s.len() ==> s[i] < 128
}

/// Relies on `String::from_utf8`: ASCII bytes are valid UTF-8, each byte one
/// character.
#[verifier::external_body]
fn ascii_string(bytes: Vec<u8>) -> (s: String)
    requires
        all_ascii(bytes@),
    ensures
        s@ == bytes@.map_values(|b: u8| b as char),
{
    String::from_utf8(bytes).unwrap_or_default()
}

/// Appends the decimal digits of `n` to `out`.
fn push_decimal(out: &mut Vec<u8>, n: u64)
    requires
        all_ascii(old(out)@),
    ensures
        final(out)@ == old(out)@ + decimal(n as nat),
        all_ascii(final(out)@),
    decreases n,
{
    if n >= 10 {
        push_decimal(out, n / 10);
    }
    out.push(DIGIT_ZERO + (n % 10) as u8);
    assert(final(out)@ =~= old(out)@ + decimal(n as nat));
}

impl RgbImage {
    /// The raster's width in pixels.
    pub closed spec fn spec_width(&self) -> nat {
        self.width as nat
    }

    /// The raster's height in pixels.
    pub closed spec fn spec_height(&self) -> nat {
        self.height as nat
    }

    /// The raster's pixels, row after row.
    pub closed spec fn pixels(&self) -> Seq<(u8, u8, u8)> {
        self.data@
    }

    #[verifier::type_invariant]
    spec fn shape_holds(&self) -> bool {
        self.data@.len() == self.width * self.height
    }

    /// A black raster of the given size.
    pub fn with_capacity(width: usize, height: usize) -> (img: Self)
        requires
            width * height <= usize::MAX,
        ensures
            img.spec_width() == width,
            img.spec_height() == height,
            img.pixels() == Seq::new((width * height) as nat, |k: int| (0u8, 0u8, 0u8)),
    {
        let n = width * height;
        let mut data: Vec<(u8, u8, u8)> = Vec::with_capacity(n);
        let mut k: usize = 0;
        while k < n
            invariant
                k <= n,
                data@ == Seq::new(k as nat, |i: int| (0u8, 0u8, 0u8)),
            decreases n - k,
        {
            data.push((0u8, 0u8, 0u8));
            k = k + 1;
            assert(data@ =~= Seq::new(k as nat, |i: int| (0u8, 0u8, 0u8)));
        }
        Self { data, width, height }
    }

    /// A raster made of the given pixels, row after row.
    pub fn from_pixels(width: usize, height: usize, data: Vec<(u8, u8, u8)>) -> (img: Self)
        requires
            data@.len() == width * height,
        ensures
            img.spec_width() == width,
            img.spec_height() == height,
            img.pixels() == data@,
    {
        Self { data, width, height }
    }

    /// The plain (ASCII) PPM text of the raster.
    pub fn to_ppm(&self) -> (s: String)
        ensures
            s@ == ppm_text(self.spec_width(), self.spec_height(), self.pixels()).map_values(
                |b: u8| b as char,
            ),
    {
        let mut out: Vec<u8> = Vec::new();
        out.push(UPPER_P);
        out.push(DIGIT_ZERO + 3);
        out.push(LINE_FEED);
        push_decimal(&mut out, self.width as u64);
        out.push(SPACE);
        push_decimal(&mut out, self.height as u64);
        out.push(LINE_FEED);
        push_decimal(&mut out, 255);
        out.push(LINE_FEED);
        let ghost header = out@;
        assert(header =~= ppm_header(self.width as nat, self.height as nat));
        let mut column: usize = 0;
        let mut k: usize = 0;
        while k < self.data.len()
            invariant
                k <= self.data@.len(),
                all_ascii(out@),
                ppm_body(self.data@.take(k as int)) == (out@.subrange(
                    header.len() as int,
                    out@.len() as int,
                ), column as nat),
                header.len() <= out@.len(),
                out@.subrange(0, header.len() as int) == header,
                column <= PPM_LINE_LIMIT + 12,
            decreases self.data@.len() - k,
        {
            let (r, g, b) = self.data[k];
            let mut t: Vec<u8> = Vec::new();
            push_decimal(&mut t, r as u64);
            t.push(SPACE);
            push_decimal(&mut t, g as u64);
            t.push(SPACE);
            push_decimal(&mut t, b as u64);
            t.push(SPACE);
            proof {
                lemma_decimal_u8_len(r as nat);
                lemma_decimal_u8_len(g as nat);
                lemma_decimal_u8_len(b as nat);
                assert(t@ =~= pixel_text(self.data@[k as int]));
                assert(self.data@.take(k + 1).drop_last() =~= self.data@.take(k as int));
            }
            let ghost before = out@;
            if column + t.len() > PPM_LINE_LIMIT {
                out.push(LINE_FEED);
                column = 0;
            }
            let mut i: usize = 0;
            let ghost mid = out@;
            while i < t.len()
                invariant
                    i <= t@.len(),
                    out@ == mid + t@.take(i as int),
                    all_ascii(mid),
                    all_ascii(t@),
                decreases t@.len() - i,
            {
                out.push(t[i]);
                i = i + 1;
                assert(out@ =~= mid + t@.take(i as int));
            }
            column = column + t.len();
            proof {
                assert(t@.take(t@.len() as int) =~= t@);
                assert(out@.subrange(0, header.len() as int) =~= header);
                if before.len() < mid.len() {
                    assert(out@.subrange(header.len() as int, out@.len() as int) =~= before.subrange(
                        header.len() as int,
                        before.len() as int,
                    ).push(LINE_FEED) + t@);
                } else {
                    assert(out@.subrange(header.len() as int, out@.len() as int) =~= before.subrange(
                        header.len() as int,
                        before.len() as int,
                    ) + t@);
                }
            }
            k = k + 1;
        }
        proof {
            assert(self.data@.take(k as int) =~= self.data@);
            assert(out@ =~= header + out@.subrange(header.len() as int, out@.len() as int));
        }
        ascii_string(out)
    }

    /// The samples as bytes, three per pixel.
    pub fn get_rgb(&self) -> (r: Vec<u8>)
        ensures
            r@ == channel_bytes(self.pixels(), 3),
    {
        self.channel_bytes(false)
    }

    /// The samples as bytes, four per pixel, with an opaque alpha channel.
    pub fn get_rgba(&self) -> (r: Vec<u8>)
        ensures
            r@ == channel_bytes(self.pixels(), 4),
    {
        self.channel_bytes(true)
    }

    fn channel_bytes(&self, alpha: bool) -> (r: Vec<u8>)
        ensures
            r@ == channel_bytes(self.pixels(), if alpha { 4 } else { 3 }),
    {
        let ghost channels: nat = if alpha { 4 } else { 3 };
        proof {
            use_type_invariant(self);
        }
        let mut r: Vec<u8> = Vec::new();
        let mut k: usize = 0;
        while k < self.data.len()
            invariant
                k <= self.data@.len(),
                r@ == channel_bytes(self.data@.take(k as int), channels),
                channels == if alpha { 4nat } else { 3nat },
            decreases self.data@.len() - k,
        {
            let (p0, p1, p2) = self.data[k];
            let ghost before = r@;
            r.push(p0);
            r.push(p1);
            r.push(p2);
            if alpha {
                r.push(255);
            }
            proof {
                let next = channel_bytes(self.data@.take(k + 1), channels);
                let c = channels as int;
                assert forall|j: int| 0 <= j < next.len() implies #[trigger] next[j] == r@[j] by {
                    if j < before.len() {
                        assert((j / c) < k) by (nonlinear_arith)
                            requires
                                0 <= j < k * c,
                                c > 0,
                        ;
                    } else {
                        assert((j / c) == k) by (nonlinear_arith)
                            requires
                                k * c <= j < (k + 1) * c,
                                c > 0,
                        ;
                        assert((j % c) == j - k * c) by (nonlinear_arith)
                            requires
                                (j / c) == k,
                                c > 0,
                        ;
                    }
                }
                assert(next.len() == r@.len()) by (nonlinear_arith)
                    requires
                        next.len() == (k + 1) * channels,
                        r@.len() == k * channels + channels,
                ;
                assert(r@ =~= next);
            }
            k = k + 1;
        }
        assert(self.data@.take(k as int) =~= self.data@);
        r
    }

    /// The pixels, row after row.
    pub fn get_data(&self) -> (r: &Vec<(u8, u8, u8)>)
        ensures
            r@ == self.pixels(),
    {
        &self.data
    }

    /// The raster's width; a raster holds `width * height` pixels.
    pub fn width(&self) -> (r: usize)
        ensures
            r == self.spec_width(),
            self.pixels().len() == self.spec_width() * self.spec_height(),
            self.spec_width() * self.spec_height() <= usize::MAX,
    {
        proof {
            use_type_invariant(self);
        }
        let _n = self.data.len();
        self.width
    }

    /// The raster's height; a raster holds `width * height` pixels.
    pub fn height(&self) -> (r: usize)
        ensures
            r == self.spec_height(),
            self.pixels().len() == self.spec_width() * self.spec_height(),
            self.spec_width() * self.spec_height() <= usize::MAX,
    {
        proof {
            use_type_invariant(self);
        }
        let _n = self.data.len();
        self.height
    }

    /// The pixel in row `row` and column `col`.
    pub fn pixel(&self, row: usize, col: usize) -> (p: (u8, u8, u8))
        requires
            row < self.spec_height(),
            col < self.spec_width(),
        ensures
            p == self.pixels()[row * self.spec_width() + col],
    {
        proof {
            use_type_invariant(self);
            lemma_index_in_grid(row as int, col as int, self.width as int, self.height as int);
        }
        let n = self.data.len();
        assert(row * self.width + col < n);
        self.data[row * self.width + col]
    }
}

/// The cell in row `row` and column `col` of a `width` by `height` grid lies
/// inside it.
pub proof fn lemma_index_in_grid(row: int, col: int, width: int, height: int)
    requires
        0 <= row < height,
        0 <= col < width,
    ensures
        0 <= row * width + col < width * height,
{
    assert(row * width + col < width * height) by (nonlinear_arith)
        requires
            0 <= row < height,
            0 <= col < width,
    ;
    assert(0 <= row * width) by (nonlinear_arith)
        requires
            0 <= row,
            0 <= col < width,
    ;
}

/// The decimal text of a byte has one to three digits.
proof fn lemma_decimal_u8_len(n: nat)
    requires
        n <= 255,
    ensures
        1 <= decimal(n).len() <= 3,
{
    reveal_with_fuel(decimal, 3);
}

} // verus!
