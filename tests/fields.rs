use mpeg2::{reconstruct, FrameMode, RgbImage, DEFAULT_THRESHOLD_PPM};

/// A raster whose pixel `(r, c)` is `f(r, c)`.
fn image(width: usize, height: usize, f: impl Fn(usize, usize) -> (u8, u8, u8)) -> RgbImage {
    let mut data = Vec::new();
    for r in 0..height {
        for c in 0..width {
            data.push(f(r, c));
        }
    }
    RgbImage::from_pixels(width, height, data)
}

fn rows(img: &RgbImage) -> Vec<Vec<(u8, u8, u8)>> {
    img.get_data().chunks(img.width().max(1)).map(|r| r.to_vec()).collect()
}

/// Each row a distinct grey level.
fn striped(width: usize, height: usize, base: u8) -> RgbImage {
    image(width, height, |r, _| {
        let g = base.wrapping_add(r as u8 * 10);
        (g, g, g)
    })
}

const INTERLACED: [FrameMode; 4] = [FrameMode::TFF, FrameMode::BFF, FrameMode::RFF_TFF, FrameMode::RFF_BFF];

#[test]
fn progressive_is_shown_as_it_is() {
    let cur = striped(5, 7, 3);
    let prev = striped(5, 7, 100);
    for previous in [None, Some(&prev)] {
        let fields = reconstruct(&cur, FrameMode::PROG, previous, DEFAULT_THRESHOLD_PPM);
        assert!(fields.second.is_none());
        assert_eq!(fields.first.get_data(), cur.get_data());
        assert_eq!((fields.first.width(), fields.first.height()), (5, 7));
    }
}

#[test]
fn without_previous_the_fields_are_the_bob_split() {
    let cur = striped(3, 5, 0);
    let r = rows(&cur);
    let top = vec![r[0].clone(), r[0].clone(), r[2].clone(), r[2].clone(), r[4].clone()];
    let bottom = vec![r[1].clone(), r[1].clone(), r[3].clone(), r[3].clone(), r[4].clone()];
    for mode in INTERLACED {
        let fields = reconstruct(&cur, mode, None, DEFAULT_THRESHOLD_PPM);
        let first = rows(&fields.first);
        let second = rows(&fields.second.unwrap());
        match mode {
            FrameMode::TFF | FrameMode::RFF_TFF => {
                assert_eq!(first, top);
                assert_eq!(second, bottom);
            }
            _ => {
                assert_eq!(first, bottom);
                assert_eq!(second, top);
            }
        }
    }
}

#[test]
fn identical_rasters_weave_everywhere() {
    let cur = striped(19, 11, 7);
    for mode in INTERLACED {
        for tau in [0, DEFAULT_THRESHOLD_PPM] {
            let fields = reconstruct(&cur, mode, Some(&copy(&cur)), tau);
            assert_eq!(fields.first.get_data(), cur.get_data());
            assert_eq!(fields.second.unwrap().get_data(), cur.get_data());
        }
    }
}

fn copy(img: &RgbImage) -> RgbImage {
    RgbImage::from_pixels(img.width(), img.height(), img.get_data().clone())
}

#[test]
fn moving_blocks_stay_bobbed() {
    // 16 x 8: two blocks side by side; only the right one changes.
    let prev = image(16, 8, |r, c| if c >= 8 { (200, 0, 0) } else { (r as u8, r as u8, r as u8) });
    let cur = image(16, 8, |r, c| if c >= 8 { (0, 0, 200) } else { (r as u8, r as u8, r as u8) });
    let fields = reconstruct(&cur, FrameMode::TFF, Some(&prev), DEFAULT_THRESHOLD_PPM);
    let top = fields.first;
    let bottom = fields.second.unwrap();
    for r in 0..8 {
        for c in 0..16 {
            if c < 8 {
                // Still block: woven, so the true rows come back.
                assert_eq!(top.pixel(r, c), cur.pixel(r, c));
                assert_eq!(bottom.pixel(r, c), cur.pixel(r, c));
            } else {
                assert_eq!(top.pixel(r, c), cur.pixel(r - r % 2, c));
                assert_eq!(bottom.pixel(r, c), cur.pixel(if r % 2 == 0 { r + 1 } else { r }, c));
            }
        }
    }
}

#[test]
fn woven_top_field_takes_odd_rows_from_previous() {
    // A small change, under the threshold, in the odd rows only.
    let prev = image(8, 8, |r, _| if r % 2 == 1 { (101, 101, 101) } else { (50, 50, 50) });
    let cur = image(8, 8, |r, _| if r % 2 == 1 { (100, 100, 100) } else { (50, 50, 50) });
    let fields = reconstruct(&cur, FrameMode::BFF, Some(&prev), DEFAULT_THRESHOLD_PPM);
    let bottom = fields.first;
    let top = fields.second.unwrap();
    for r in 0..8 {
        for c in 0..8 {
            assert_eq!(top.pixel(r, c), if r % 2 == 1 { (101, 101, 101) } else { (50, 50, 50) });
            assert_eq!(bottom.pixel(r, c), cur.pixel(r, c));
        }
    }
}

#[test]
fn threshold_decides_the_weave() {
    // Odd rows differ by 13 in every sample, even rows not at all: the
    // larger of the two parities' errors is 13 / 255.
    let prev = image(8, 8, |r, _| if r % 2 == 1 { (113, 113, 113) } else { (50, 50, 50) });
    let cur = image(8, 8, |r, _| if r % 2 == 1 { (100, 100, 100) } else { (50, 50, 50) });
    // 13 / 255 = 0.05098...: above 0.05, so bobbed.
    let fields = reconstruct(&cur, FrameMode::TFF, Some(&prev), 50_000);
    assert_eq!(fields.first.pixel(1, 0), (50, 50, 50));
    // At 0.051 it is woven.
    let fields = reconstruct(&cur, FrameMode::TFF, Some(&prev), 51_000);
    assert_eq!(fields.first.pixel(1, 0), (113, 113, 113));
}

#[test]
fn previous_of_another_size_is_not_used() {
    let cur = striped(4, 4, 0);
    let prev = striped(2, 8, 0);
    let fields = reconstruct(&cur, FrameMode::TFF, Some(&prev), u64::MAX);
    let r = rows(&cur);
    assert_eq!(rows(&fields.first), vec![r[0].clone(), r[0].clone(), r[2].clone(), r[2].clone()]);
}
