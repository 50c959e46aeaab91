//! Reconstruction of the displayable fields of a frame: a bob split, woven
//! block by block where the previous frame shows little motion.

use vstd::prelude::*;

use vstd::arithmetic::div_mod::{lemma_fundamental_div_mod, lemma_fundamental_div_mod_converse};

use crate::flag::FrameMode;
use crate::image::{lemma_index_in_grid, RgbImage};

verus! {

/// Side of the square blocks that weave decisions are made on.
pub const BLOCK_SIZE: usize = 8;

/// Thresholds are written in millionths.
pub const THRESHOLD_SCALE: u64 = 1_000_000;

/// The default threshold, 0.05, in millionths.
pub const DEFAULT_THRESHOLD_PPM: u64 = 50_000;

/// The largest difference between two pixels: three samples of 255.
pub const MAX_PIXEL_DIFF: u64 = 765;

/// The displayable fields of one frame: a progressive frame has one, an
/// interlaced frame two, in presentation order.
pub struct FieldPair {
    pub first: RgbImage,
    pub second: Option<RgbImage>,
}

pub open spec fn abs_diff(a: u8, b: u8) -> nat {
    if a >= b {
        (a - b) as nat
    } else {
        (b - a) as nat
    }
}

/// Sum of the absolute differences of the three samples of two pixels.
pub open spec fn pixel_diff(a: (u8, u8, u8), b: (u8, u8, u8)) -> nat {
    abs_diff(a.0, b.0) + abs_diff(a.1, b.1) + abs_diff(a.2, b.2)
}

/// Sum of the pixel differences in row `r`, columns `c0..c1`, of two rasters
/// of width `w`.
pub open spec fn row_diff(
    prev: Seq<(u8, u8, u8)>,
    cur: Seq<(u8, u8, u8)>,
    w: nat,
    r: nat,
    c0: nat,
    c1: nat,
) -> nat
    decreases c1,
{
    if c1 <= c0 {
        0
    } else {
        let k = r * w + c1 - 1;
        row_diff(prev, cur, w, r, c0, (c1 - 1) as nat) + pixel_diff(prev[(k) as int], cur[(k) as int])
    }
}

/// Sum of the pixel differences in the rows of `r0..r1` whose parity is
/// `parity`, columns `c0..c1`.
pub open spec fn parity_diff(
    prev: Seq<(u8, u8, u8)>,
    cur: Seq<(u8, u8, u8)>,
    w: nat,
    r0: nat,
    r1: nat,
    c0: nat,
    c1: nat,
    parity: nat,
) -> nat
    decreases r1,
{
    if r1 <= r0 {
        0
    } else {
        parity_diff(prev, cur, w, r0, (r1 - 1) as nat, c0, c1, parity) + if (r1 - 1) % 2
            == parity {
            row_diff(prev, cur, w, (r1 - 1) as nat, c0, c1)
        } else {
            0
        }
    }
}

/// The number of rows of `r0..r1` whose parity is `parity`.
pub open spec fn parity_rows(r0: nat, r1: nat, parity: nat) -> nat
    decreases r1,
{
    if r1 <= r0 {
        0
    } else {
        parity_rows(r0, (r1 - 1) as nat, parity) + if (r1 - 1) % 2 == parity {
            1nat
        } else {
            0nat
        }
    }
}

/// Where a block that starts at `start` ends, in a dimension of size `len`.
pub open spec fn block_end(start: nat, len: nat) -> nat {
    if start + BLOCK_SIZE as nat <= len {
        start + BLOCK_SIZE as nat
    } else {
        len
    }
}

/// In block `(br, bc)`, the mean absolute sample difference of the rows of
/// parity `parity`, normalised by 255, is at most `tau_ppm` millionths. The
/// mean is over the three samples of each pixel; a parity with no rows in the
/// block counts as still.
pub open spec fn parity_still(
    prev: Seq<(u8, u8, u8)>,
    cur: Seq<(u8, u8, u8)>,
    w: nat,
    h: nat,
    br: nat,
    bc: nat,
    parity: nat,
    tau_ppm: nat,
) -> bool {
    let r0: nat = br * (BLOCK_SIZE as nat);
    let r1 = block_end(r0, h);
    let c0: nat = bc * (BLOCK_SIZE as nat);
    let c1 = block_end(c0, w);
    parity_diff(prev, cur, w, r0, r1, c0, c1, parity) * THRESHOLD_SCALE <= tau_ppm * MAX_PIXEL_DIFF
        * parity_rows(r0, r1, parity) * (c1 - c0)
}

/// Block `(br, bc)` is woven: both parities show an error of at most the
/// threshold, so the larger of the two does.
pub open spec fn block_weaves(
    prev: Seq<(u8, u8, u8)>,
    cur: Seq<(u8, u8, u8)>,
    w: nat,
    h: nat,
    br: nat,
    bc: nat,
    tau_ppm: nat,
) -> bool {
    parity_still(prev, cur, w, h, br, bc, 0, tau_ppm) && parity_still(
        prev,
        cur,
        w,
        h,
        br,
        bc,
        1,
        tau_ppm,
    )
}

/// Pixel `(r, c)` of the bob split's top field: odd rows repeat the row above.
pub open spec fn bob_top_pixel(cur: Seq<(u8, u8, u8)>, w: nat, r: nat, c: nat) -> (u8, u8, u8) {
    cur[((r - r % 2) * w + c) as int]
}

/// Pixel `(r, c)` of the bob split's bottom field: even rows repeat the row
/// below, where there is one.
pub open spec fn bob_bottom_pixel(cur: Seq<(u8, u8, u8)>, w: nat, h: nat, r: nat, c: nat) -> (u8,
    u8,
    u8,
) {
    if r % 2 == 0 && r + 1 < h {
        cur[((r + 1) * w + c) as int]
    } else {
        cur[(r * w + c) as int]
    }
}

/// The top field of the bob split of a `w` by `h` raster.
pub open spec fn bob_top(cur: Seq<(u8, u8, u8)>, w: nat, h: nat) -> Seq<(u8, u8, u8)> {
    Seq::new(w * h, |k: int| bob_top_pixel(cur, w, (k / w as int) as nat, (k % w as int) as nat))
}

/// The bottom field of the bob split of a `w` by `h` raster.
pub open spec fn bob_bottom(cur: Seq<(u8, u8, u8)>, w: nat, h: nat) -> Seq<(u8, u8, u8)> {
    Seq::new(
        w * h,
        |k: int| bob_bottom_pixel(cur, w, h, (k / w as int) as nat, (k % w as int) as nat),
    )
}

/// Pixel `(r, c)` of the top field: in a woven block the odd rows come from
/// the previous raster, elsewhere as in the bob split.
pub open spec fn top_pixel(
    cur: Seq<(u8, u8, u8)>,
    prev: Seq<(u8, u8, u8)>,
    w: nat,
    h: nat,
    weave: bool,
    tau_ppm: nat,
    r: nat,
    c: nat,
) -> (u8, u8, u8) {
    if r % 2 == 1 && weave && block_weaves(
        prev,
        cur,
        w,
        h,
        r / BLOCK_SIZE as nat,
        c / BLOCK_SIZE as nat,
        tau_ppm,
    ) {
        prev[(r * w + c) as int]
    } else {
        bob_top_pixel(cur, w, r, c)
    }
}

/// Pixel `(r, c)` of the bottom field: in a woven block the even rows are the
/// current raster's own, elsewhere as in the bob split.
pub open spec fn bottom_pixel(
    cur: Seq<(u8, u8, u8)>,
    prev: Seq<(u8, u8, u8)>,
    w: nat,
    h: nat,
    weave: bool,
    tau_ppm: nat,
    r: nat,
    c: nat,
) -> (u8, u8, u8) {
    if r % 2 == 0 && weave && block_weaves(
        prev,
        cur,
        w,
        h,
        r / BLOCK_SIZE as nat,
        c / BLOCK_SIZE as nat,
        tau_ppm,
    ) {
        cur[(r * w + c) as int]
    } else {
        bob_bottom_pixel(cur, w, h, r, c)
    }
}

/// The reconstructed top field; with `weave` false it is the bob split's.
pub open spec fn top_field(
    cur: Seq<(u8, u8, u8)>,
    prev: Seq<(u8, u8, u8)>,
    w: nat,
    h: nat,
    weave: bool,
    tau_ppm: nat,
) -> Seq<(u8, u8, u8)> {
    Seq::new(
        w * h,
        |k: int| top_pixel(cur, prev, w, h, weave, tau_ppm, (k / w as int) as nat, (k % w as int) as nat),
    )
}

/// The reconstructed bottom field; with `weave` false it is the bob split's.
pub open spec fn bottom_field(
    cur: Seq<(u8, u8, u8)>,
    prev: Seq<(u8, u8, u8)>,
    w: nat,
    h: nat,
    weave: bool,
    tau_ppm: nat,
) -> Seq<(u8, u8, u8)> {
    Seq::new(
        w * h,
        |k: int|
            bottom_pixel(cur, prev, w, h, weave, tau_ppm, (k / w as int) as nat, (k % w as int) as nat),
    )
}

/// The top and bottom fields in presentation order: bottom-first modes swap
/// them.
pub open spec fn in_presentation_order<T>(mode: FrameMode, top: T, bottom: T) -> (T, T) {
    match mode {
        FrameMode::RFF_TFF | FrameMode::TFF => (top, bottom),
        _ => (bottom, top),
    }
}

/// The previous raster can be woven with a `w` by `h` raster.
pub open spec fn usable_previous(previous: Option<&RgbImage>, w: nat, h: nat) -> bool {
    previous.is_some() && previous.unwrap().spec_width() == w && previous.unwrap().spec_height()
        == h
}

/// The previous raster's pixels where it is usable.
pub open spec fn previous_pixels(previous: Option<&RgbImage>, w: nat, h: nat) -> Seq<(u8, u8, u8)> {
    if usable_previous(previous, w, h) {
        previous.unwrap().pixels()
    } else {
        Seq::empty()
    }
}

/// The number of blocks that cover a dimension of size `len`.
pub open spec fn block_count(len: nat) -> nat {
    len / (BLOCK_SIZE as nat) + if len % (BLOCK_SIZE as nat) == 0 {
        0nat
    } else {
        1nat
    }
}

fn abs_diff_exec(a: u8, b: u8) -> (d: u64)
    ensures
        d == abs_diff(a, b),
        d <= 255,
{
    if a >= b {
        (a - b) as u64
    } else {
        (b - a) as u64
    }
}

/// Sum of the pixel differences in row `r`, columns `c0..c1`.
fn row_diff_exec(
    prev: &Vec<(u8, u8, u8)>,
    cur: &Vec<(u8, u8, u8)>,
    w: usize,
    h: usize,
    r: usize,
    c0: usize,
    c1: usize,
) -> (d: u64)
    requires
        prev@.len() == w * h,
        cur@.len() == w * h,
        w * h <= usize::MAX,
        r < h,
        c0 <= c1 <= w,
        c1 - c0 <= BLOCK_SIZE,
    ensures
        d == row_diff(prev@, cur@, w as nat, r as nat, c0 as nat, c1 as nat),
        d <= MAX_PIXEL_DIFF * (c1 - c0),
{
    let mut d: u64 = 0;
    let mut c: usize = c0;
    while c < c1
        invariant
            prev@.len() == w * h,
            cur@.len() == w * h,
            w * h <= usize::MAX,
            r < h,
            c0 <= c <= c1 <= w,
            c1 - c0 <= BLOCK_SIZE,
            d == row_diff(prev@, cur@, w as nat, r as nat, c0 as nat, c as nat),
            d <= MAX_PIXEL_DIFF * (c - c0),
        decreases c1 - c,
    {
        proof {
            lemma_index_in_grid(r as int, c as int, w as int, h as int);
        }
        let k = r * w + c;
        let a = prev[k];
        let b = cur[k];
        d = d + abs_diff_exec(a.0, b.0) + abs_diff_exec(a.1, b.1) + abs_diff_exec(a.2, b.2);
        c = c + 1;
    }
    d
}

/// Whether block `(br, bc)` is woven.
fn block_weaves_exec(
    prev: &Vec<(u8, u8, u8)>,
    cur: &Vec<(u8, u8, u8)>,
    w: usize,
    h: usize,
    br: usize,
    bc: usize,
    tau_ppm: u64,
) -> (b: bool)
    requires
        prev@.len() == w * h,
        cur@.len() == w * h,
        w * h <= usize::MAX,
        br * BLOCK_SIZE < h,
        bc * BLOCK_SIZE < w,
    ensures
        b == block_weaves(prev@, cur@, w as nat, h as nat, br as nat, bc as nat, tau_ppm as nat),
{
    let r0 = br * BLOCK_SIZE;
    let r1 = if h - r0 >= BLOCK_SIZE {
        r0 + BLOCK_SIZE
    } else {
        h
    };
    let c0 = bc * BLOCK_SIZE;
    let c1 = if w - c0 >= BLOCK_SIZE {
        c0 + BLOCK_SIZE
    } else {
        w
    };
    assert(r1 == block_end(r0 as nat, h as nat));
    assert(c1 == block_end(c0 as nat, w as nat));
    let mut d0: u64 = 0;
    let mut d1: u64 = 0;
    let mut n0: u64 = 0;
    let mut n1: u64 = 0;
    let mut r: usize = r0;
    while r < r1
        invariant
            prev@.len() == w * h,
            cur@.len() == w * h,
            w * h <= usize::MAX,
            r0 <= r <= r1 <= h,
            r1 - r0 <= BLOCK_SIZE,
            c0 < c1 <= w,
            c1 - c0 <= BLOCK_SIZE,
            d0 == parity_diff(prev@, cur@, w as nat, r0 as nat, r as nat, c0 as nat, c1 as nat, 0),
            d1 == parity_diff(prev@, cur@, w as nat, r0 as nat, r as nat, c0 as nat, c1 as nat, 1),
            n0 == parity_rows(r0 as nat, r as nat, 0),
            n1 == parity_rows(r0 as nat, r as nat, 1),
            d0 <= 6120 * (r - r0),
            d1 <= 6120 * (r - r0),
            n0 <= r - r0,
            n1 <= r - r0,
        decreases r1 - r,
    {
        let d = row_diff_exec(prev, cur, w, h, r, c0, c1);
        assert(d <= 6120);
        if r % 2 == 0 {
            d0 = d0 + d;
            n0 = n0 + 1;
        } else {
            d1 = d1 + d;
            n1 = n1 + 1;
        }
        r = r + 1;
    }
    let cols = (c1 - c0) as u128;
    let limit = (tau_ppm as u128) * (MAX_PIXEL_DIFF as u128);
    assert(limit * 64 <= 765 * 64 * 0x1_0000_0000_0000_0000);
    proof {
        lemma_product_bound(limit as int, n0 as int, cols as int);
        lemma_product_bound(limit as int, n1 as int, cols as int);
    }
    let still0 = (d0 as u128) * (THRESHOLD_SCALE as u128) <= limit * (n0 as u128) * cols;
    let still1 = (d1 as u128) * (THRESHOLD_SCALE as u128) <= limit * (n1 as u128) * cols;
    still0 && still1
}

/// The weave decision of every block, row of blocks after row of blocks.
fn weave_map(prev: &Vec<(u8, u8, u8)>, cur: &Vec<(u8, u8, u8)>, w: usize, h: usize, tau_ppm: u64) -> (m: Vec<bool>)
    requires
        prev@.len() == w * h,
        cur@.len() == w * h,
        w * h <= usize::MAX,
    ensures
        m@.len() == block_count(h as nat) * block_count(w as nat),
        forall|i: int|
            0 <= i < m@.len() ==> #[trigger] m@[i] == block_weaves(
                prev@,
                cur@,
                w as nat,
                h as nat,
                (i / block_count(w as nat) as int) as nat,
                (i % block_count(w as nat) as int) as nat,
                tau_ppm as nat,
            ),
{
    let bh = h / BLOCK_SIZE + if h % BLOCK_SIZE == 0 {
        0
    } else {
        1
    };
    let bw = w / BLOCK_SIZE + if w % BLOCK_SIZE == 0 {
        0
    } else {
        1
    };
    let ghost bwn = block_count(w as nat) as int;
    assert(bw == bwn);
    assert(bh == block_count(h as nat));
    let mut m: Vec<bool> = Vec::new();
    let mut br: usize = 0;
    while br < bh
        invariant
            prev@.len() == w * h,
            cur@.len() == w * h,
            w * h <= usize::MAX,
            bh == block_count(h as nat),
            bw == bwn,
            bwn == block_count(w as nat),
            br <= bh,
            m@.len() == br * bw,
            forall|i: int|
                0 <= i < m@.len() ==> #[trigger] m@[i] == block_weaves(
                    prev@,
                    cur@,
                    w as nat,
                    h as nat,
                    (i / bwn) as nat,
                    (i % bwn) as nat,
                    tau_ppm as nat,
                ),
        decreases bh - br,
    {
        let mut bc: usize = 0;
        while bc < bw
            invariant
                prev@.len() == w * h,
                cur@.len() == w * h,
                w * h <= usize::MAX,
                bh == block_count(h as nat),
                bw == bwn,
                bwn == block_count(w as nat),
            bwn == block_count(w as nat),
                br < bh,
                bc <= bw,
                m@.len() == br * bw + bc,
                forall|i: int|
                    0 <= i < m@.len() ==> #[trigger] m@[i] == block_weaves(
                        prev@,
                        cur@,
                        w as nat,
                        h as nat,
                        (i / bwn) as nat,
                        (i % bwn) as nat,
                        tau_ppm as nat,
                    ),
            decreases bw - bc,
        {
            proof {
                lemma_block_start(br as nat, h as nat);
                lemma_block_start(bc as nat, w as nat);
            }
            let b = block_weaves_exec(prev, cur, w, h, br, bc, tau_ppm);
            proof {
                lemma_fundamental_div_mod_converse(m@.len() as int, bwn, br as int, bc as int);
            }
            m.push(b);
            bc = bc + 1;
        }
        assert(m@.len() == (br + 1) * bw) by (nonlinear_arith)
            requires
                m@.len() == br * bw + bw,
        ;
        br = br + 1;
    }
    m
}

/// A block of a dimension of size `len` starts inside it.
proof fn lemma_block_start(b: nat, len: nat)
    requires
        b < block_count(len),
    ensures
        b * BLOCK_SIZE < len,
{
    lemma_fundamental_div_mod(len as int, BLOCK_SIZE as int);
    let q = len / (BLOCK_SIZE as nat);
    let m = len % (BLOCK_SIZE as nat);
    assert(b * 8 < len) by (nonlinear_arith)
        requires
            len == 8 * q + m,
            b < q + if m == 0 {
                0nat
            } else {
                1nat
            },
            0 <= m < 8,
    ;
}

/// `limit * a * b` fits in `u128` when `a` and `b` are at most 8 and `limit`
/// is at most `765 * 2^64`.
proof fn lemma_product_bound(limit: int, a: int, b: int)
    requires
        0 <= limit <= 765 * 0x1_0000_0000_0000_0000,
        0 <= a <= 8,
        0 <= b <= 8,
    ensures
        0 <= limit * a <= limit * 8,
        0 <= limit * a * b <= limit * 64,
        limit * 64 < 0x1_0000_0000_0000_0000_0000_0000_0000_0000,
{
    assert(0 <= limit * a <= limit * 8) by (nonlinear_arith)
        requires
            0 <= limit,
            0 <= a <= 8,
    ;
    assert(0 <= limit * a * b <= limit * 64) by (nonlinear_arith)
        requires
            0 <= limit,
            0 <= a <= 8,
            0 <= b <= 8,
    ;
}

/// The top and bottom fields of a `w` by `h` raster, pixel by pixel. Where
/// `weave` holds, `map` is the weave decision of every block.
fn build_fields(
    cur: &Vec<(u8, u8, u8)>,
    prev: &Vec<(u8, u8, u8)>,
    w: usize,
    h: usize,
    weave: bool,
    map: &Vec<bool>,
    tau_ppm: u64,
) -> (fields: (Vec<(u8, u8, u8)>, Vec<(u8, u8, u8)>))
    requires
        cur@.len() == w * h,
        w * h <= usize::MAX,
        weave ==> prev@.len() == w * h,
        weave ==> map@.len() == block_count(h as nat) * block_count(w as nat),
        weave ==> forall|i: int|
            0 <= i < map@.len() ==> #[trigger] map@[i] == block_weaves(
                prev@,
                cur@,
                w as nat,
                h as nat,
                (i / block_count(w as nat) as int) as nat,
                (i % block_count(w as nat) as int) as nat,
                tau_ppm as nat,
            ),
    ensures
        fields.0@ == top_field(cur@, prev@, w as nat, h as nat, weave, tau_ppm as nat),
        fields.1@ == bottom_field(cur@, prev@, w as nat, h as nat, weave, tau_ppm as nat),
{
    let n = w * h;
    let bw = w / BLOCK_SIZE + if w % BLOCK_SIZE == 0 {
        0
    } else {
        1
    };
    let ghost bhn = block_count(h as nat) as int;
    let ghost bwn = block_count(w as nat) as int;
    assert(bw == bwn);
    let mut top: Vec<(u8, u8, u8)> = Vec::with_capacity(n);
    let mut bottom: Vec<(u8, u8, u8)> = Vec::with_capacity(n);
    let mut k: usize = 0;
    while k < n
        invariant
            cur@.len() == w * h,
            n == w * h,
            n <= usize::MAX,
            weave ==> prev@.len() == w * h,
            weave ==> map@.len() == bhn * bwn,
            weave ==> forall|i: int|
                0 <= i < map@.len() ==> #[trigger] map@[i] == block_weaves(
                    prev@,
                    cur@,
                    w as nat,
                    h as nat,
                    (i / bwn) as nat,
                    (i % bwn) as nat,
                    tau_ppm as nat,
                ),
            bhn == block_count(h as nat),
            bwn == block_count(w as nat),
            bw == bwn,
            k <= n,
            top@.len() == k,
            bottom@.len() == k,
            forall|i: int|
                0 <= i < k ==> #[trigger] top@[i] == top_pixel(
                    cur@,
                    prev@,
                    w as nat,
                    h as nat,
                    weave,
                    tau_ppm as nat,
                    (i / w as int) as nat,
                    (i % w as int) as nat,
                ),
            forall|i: int|
                0 <= i < k ==> #[trigger] bottom@[i] == bottom_pixel(
                    cur@,
                    prev@,
                    w as nat,
                    h as nat,
                    weave,
                    tau_ppm as nat,
                    (i / w as int) as nat,
                    (i % w as int) as nat,
                ),
        decreases n - k,
    {
        assert(w > 0) by (nonlinear_arith)
            requires
                k < w * h,
                w >= 0,
                h >= 0,
        ;
        let r = k / w;
        let c = k % w;
        proof {
            lemma_fundamental_div_mod(k as int, w as int);
            assert(r < h) by (nonlinear_arith)
                requires
                    k == w * r + c,
                    0 <= c,
                    k < w * h,
                    w > 0,
            ;
            assert(r * w + c == k) by (nonlinear_arith)
                requires
                    k == w * r + c,
            ;
        }
        let woven = if weave {
            let map_len = map.len();
            let br = r / BLOCK_SIZE;
            let bc = c / BLOCK_SIZE;
            proof {
                lemma_block_index(r as nat, h as nat);
                lemma_block_index(c as nat, w as nat);
                lemma_index_in_grid(br as int, bc as int, bwn, bhn);
                assert(br * bw + bc < map@.len()) by (nonlinear_arith)
                    requires
                        br * bwn + bc < bwn * bhn,
                        map@.len() == bhn * bwn,
                        bw == bwn,
                ;
                lemma_fundamental_div_mod_converse((br * bw + bc) as int, bwn, br as int, bc as int);
                assert(br * bw + bc < map_len);
                assert(0 <= br * bw) by (nonlinear_arith)
                    requires
                        br >= 0,
                        bw >= 0,
                ;
            }
            map[br * bw + bc]
        } else {
            false
        };
        let t = if r % 2 == 1 && woven {
            prev[k]
        } else {
            proof {
                assert((r - r % 2) * w + c == k - (r % 2) * w) by (nonlinear_arith)
                    requires
                        r * w + c == k,
            ;
                assert(0 <= (r - r % 2) * w) by (nonlinear_arith)
                    requires
                        r >= r % 2,
                        w > 0,
            ;
            }
            cur[k - (r % 2) * w]
        };
        let b = if r % 2 == 0 && !woven && r + 1 < h {
            proof {
                lemma_index_in_grid((r + 1) as int, c as int, w as int, h as int);
                assert((r + 1) * w + c == k + w) by (nonlinear_arith)
                    requires
                        r * w + c == k,
                ;
            }
            cur[k + w]
        } else {
            cur[k]
        };
        top.push(t);
        bottom.push(b);
        k = k + 1;
    }
    assert(top@ =~= top_field(cur@, prev@, w as nat, h as nat, weave, tau_ppm as nat));
    assert(bottom@ =~= bottom_field(cur@, prev@, w as nat, h as nat, weave, tau_ppm as nat));
    (top, bottom)
}

/// Row or column `x` of a dimension of size `len` lies in one of its blocks.
proof fn lemma_block_index(x: nat, len: nat)
    requires
        x < len,
    ensures
        x / (BLOCK_SIZE as nat) < block_count(len),
{
    lemma_fundamental_div_mod(len as int, BLOCK_SIZE as int);
    lemma_fundamental_div_mod(x as int, BLOCK_SIZE as int);
}

/// A copy of a row of pixels.
fn copy_pixels(v: &Vec<(u8, u8, u8)>) -> (r: Vec<(u8, u8, u8)>)
    ensures
        r@ == v@,
{
    let mut r: Vec<(u8, u8, u8)> = Vec::with_capacity(v.len());
    let mut i: usize = 0;
    while i < v.len()
        invariant
            i <= v@.len(),
            r@ == v@.take(i as int),
        decreases v@.len() - i,
    {
        r.push(v[i]);
        i = i + 1;
        assert(r@ =~= v@.take(i as int));
    }
    assert(v@.take(i as int) =~= v@);
    r
}

/// The displayable fields of `current`, shown in mode `mode`, after
/// `previous`. A progressive frame is shown as it is. An interlaced frame is
/// split into a top and a bottom field by line doubling; where `previous` has
/// the same size, each 8 by 8 block whose even rows and odd rows both differ
/// from the previous raster's by at most `threshold_ppm` millionths (mean
/// absolute sample difference over 255) is woven instead: the top field takes
/// its odd rows from `previous`, the bottom field its even rows from
/// `current`. The fields come in presentation order.
pub fn reconstruct(
    current: &RgbImage,
    mode: FrameMode,
    previous: Option<&RgbImage>,
    threshold_ppm: u64,
) -> (fields: FieldPair)
    ensures
        fields.first.spec_width() == current.spec_width(),
        fields.first.spec_height() == current.spec_height(),
        mode == FrameMode::PROG ==> fields.first.pixels() == current.pixels()
            && fields.second.is_none(),
        mode != FrameMode::PROG ==> {
            let w = current.spec_width();
            let h = current.spec_height();
            let weave = usable_previous(previous, w, h);
            let prev = previous_pixels(previous, w, h);
            &&& fields.second.is_some()
            &&& fields.second.unwrap().spec_width() == w
            &&& fields.second.unwrap().spec_height() == h
            &&& (fields.first.pixels(), fields.second.unwrap().pixels()) == in_presentation_order(
                mode,
                top_field(current.pixels(), prev, w, h, weave, threshold_ppm as nat),
                bottom_field(current.pixels(), prev, w, h, weave, threshold_ppm as nat),
            )
        },
        mode != FrameMode::PROG && previous.is_none() ==> (
        fields.first.pixels(),
        fields.second.unwrap().pixels(),
        ) == in_presentation_order(
            mode,
            bob_top(current.pixels(), current.spec_width(), current.spec_height()),
            bob_bottom(current.pixels(), current.spec_width(), current.spec_height()),
        ),
{
    let w = current.width();
    let h = current.height();
    let cur = current.get_data();
    if mode == FrameMode::PROG {
        let first = RgbImage::from_pixels(w, h, copy_pixels(cur));
        return FieldPair { first, second: None };
    }
    let empty: Vec<(u8, u8, u8)> = Vec::new();
    let mut weave = false;
    let mut prev: &Vec<(u8, u8, u8)> = &empty;
    match previous {
        Some(p) => {
            if p.width() == w && p.height() == h {
                weave = true;
                prev = p.get_data();
            }
        },
        None => {},
    }
    assert(weave == usable_previous(previous, w as nat, h as nat));
    assert(prev@ == previous_pixels(previous, w as nat, h as nat));
    let map = if weave {
        weave_map(prev, cur, w, h, threshold_ppm)
    } else {
        Vec::new()
    };
    let (top, bottom) = build_fields(cur, prev, w, h, weave, &map, threshold_ppm);
    proof {
        lemma_unwoven_is_bob(cur@, prev@, w as nat, h as nat, threshold_ppm as nat);
    }
    let top = RgbImage::from_pixels(w, h, top);
    let bottom = RgbImage::from_pixels(w, h, bottom);
    match mode {
        FrameMode::RFF_TFF | FrameMode::TFF => FieldPair { first: top, second: Some(bottom) },
        _ => FieldPair { first: bottom, second: Some(top) },
    }
}

/// Without weaving, the fields are those of the bob split.
pub proof fn lemma_unwoven_is_bob(
    cur: Seq<(u8, u8, u8)>,
    prev: Seq<(u8, u8, u8)>,
    w: nat,
    h: nat,
    tau_ppm: nat,
)
    ensures
        top_field(cur, prev, w, h, false, tau_ppm) == bob_top(cur, w, h),
        bottom_field(cur, prev, w, h, false, tau_ppm) == bob_bottom(cur, w, h),
{
    assert(top_field(cur, prev, w, h, false, tau_ppm) =~= bob_top(cur, w, h));
    assert(bottom_field(cur, prev, w, h, false, tau_ppm) =~= bob_bottom(cur, w, h));
}

proof fn lemma_row_diff_same(s: Seq<(u8, u8, u8)>, w: nat, r: nat, c0: nat, c1: nat)
    ensures
        row_diff(s, s, w, r, c0, c1) == 0,
    decreases c1,
{
    if c1 > c0 {
        lemma_row_diff_same(s, w, r, c0, (c1 - 1) as nat);
    }
}

proof fn lemma_parity_diff_same(
    s: Seq<(u8, u8, u8)>,
    w: nat,
    r0: nat,
    r1: nat,
    c0: nat,
    c1: nat,
    parity: nat,
)
    ensures
        parity_diff(s, s, w, r0, r1, c0, c1, parity) == 0,
    decreases r1,
{
    if r1 > r0 {
        lemma_parity_diff_same(s, w, r0, (r1 - 1) as nat, c0, c1, parity);
        lemma_row_diff_same(s, w, (r1 - 1) as nat, c0, c1);
    }
}

/// When a raster follows an identical one, every block's error is zero, so
/// every block is woven, whatever the threshold: the rows that each field
/// takes from the other parity are the previous raster's true rows, not
/// repeated neighbours, and both fields equal the raster.
pub proof fn lemma_identical_rasters_weave(raster: Seq<(u8, u8, u8)>, w: nat, h: nat, tau_ppm: nat)
    requires
        raster.len() == w * h,
    ensures
        forall|br: nat, bc: nat|
            br * BLOCK_SIZE < h && bc * BLOCK_SIZE < w ==> #[trigger] block_weaves(
                raster,
                raster,
                w,
                h,
                br,
                bc,
                tau_ppm,
            ),
        top_field(raster, raster, w, h, true, tau_ppm) == raster,
        bottom_field(raster, raster, w, h, true, tau_ppm) == raster,
{
    assert forall|br: nat, bc: nat|
        br * BLOCK_SIZE < h && bc * BLOCK_SIZE < w implies #[trigger] block_weaves(
            raster,
            raster,
            w,
            h,
            br,
            bc,
            tau_ppm,
        ) by {
        let r0: nat = br * (BLOCK_SIZE as nat);
        let r1 = block_end(r0, h);
        let c0: nat = bc * (BLOCK_SIZE as nat);
        let c1 = block_end(c0, w);
        lemma_parity_diff_same(raster, w, r0, r1, c0, c1, 0);
        lemma_parity_diff_same(raster, w, r0, r1, c0, c1, 1);
        let n0 = parity_rows(r0, r1, 0);
        let n1 = parity_rows(r0, r1, 1);
        let cols = c1 - c0;
        assert(0 <= tau_ppm * MAX_PIXEL_DIFF * n0 * cols) by (nonlinear_arith)
            requires
                0 <= tau_ppm,
                0 <= n0,
                0 <= cols,
        ;
        assert(0 <= tau_ppm * MAX_PIXEL_DIFF * n1 * cols) by (nonlinear_arith)
            requires
                0 <= tau_ppm,
                0 <= n1,
                0 <= cols,
        ;
    }
    let top = top_field(raster, raster, w, h, true, tau_ppm);
    let bottom = bottom_field(raster, raster, w, h, true, tau_ppm);
    assert forall|k: int| 0 <= k < raster.len() implies top[k] == raster[k] && bottom[k]
        == raster[k] by {
        let r = k / w as int;
        let c = k % w as int;
        lemma_fundamental_div_mod(k, w as int);
        assert(r * w + c == k) by (nonlinear_arith)
            requires
                k == w * r + c,
        ;
        assert(r < h) by (nonlinear_arith)
            requires
                k == w * r + c,
                0 <= c,
                k < w * h,
        ;
        lemma_fundamental_div_mod(r, BLOCK_SIZE as int);
        lemma_fundamental_div_mod(c, BLOCK_SIZE as int);
        assert(block_weaves(
            raster,
            raster,
            w,
            h,
            (r as nat) / (BLOCK_SIZE as nat),
            (c as nat) / (BLOCK_SIZE as nat),
            tau_ppm,
        ));
    }
    assert(top =~= raster);
    assert(bottom =~= raster);
}

} // verus!
