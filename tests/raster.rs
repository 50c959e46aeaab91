use mpeg2::pgm_parser::{parse_header, yuv_to_rgb_exec};
use mpeg2::{decode, DecodeError, Rgb, RgbImage};

/// A raster file of the given size whose luma plane holds `y` and whose
/// chroma rows are `u` then `v`, each row of `u` and `v` `width / 2` long.
fn raster(width: usize, height: usize, y: &[u8], u: &[u8], v: &[u8]) -> Vec<u8> {
    let mut data = format!("P5\n{} {}\n255\n", width, height).into_bytes();
    data.extend_from_slice(y);
    let cw = width / 2;
    for row in 0..height / 3 {
        data.extend_from_slice(&u[row * cw..(row + 1) * cw]);
        data.extend_from_slice(&v[row * cw..(row + 1) * cw]);
    }
    data
}

fn uniform(width: usize, height: usize, y: u8, u: u8, v: u8) -> Vec<u8> {
    let lh = height * 2 / 3;
    let ch = height / 3;
    let cw = width / 2;
    raster(width, height, &vec![y; width * lh], &vec![u; cw * ch], &vec![v; cw * ch])
}

#[test]
fn black_level_decodes_to_black() {
    let img = decode(&uniform(4, 6, 16, 128, 128)).unwrap();
    assert_eq!(img.width(), 4);
    assert_eq!(img.height(), 4);
    assert!(img.get_data().iter().all(|p| *p == (0, 0, 0)));
}

#[test]
fn white_level_follows_the_conversion_formula() {
    // Y' = 235 - 16 = 219, and the formula applies no gain to luma.
    let img = decode(&uniform(4, 6, 235, 128, 128)).unwrap();
    assert!(img.get_data().iter().all(|p| *p == (219, 219, 219)));
    let img = decode(&uniform(2, 3, 255, 128, 128)).unwrap();
    assert_eq!(img.get_data(), &vec![(239, 239, 239); 4]);
}

#[test]
fn conversion_values() {
    assert_eq!(yuv_to_rgb_exec(16, 128, 128), (0, 0, 0));
    assert_eq!(yuv_to_rgb_exec(100, 200, 50), (0, 114, 208));
    assert_eq!(yuv_to_rgb_exec(200, 100, 180), (255, 157, 135));
    assert_eq!(yuv_to_rgb_exec(0, 0, 0), (0, 116, 0));
    assert_eq!(yuv_to_rgb_exec(255, 255, 255), (255, 107, 255));
}

#[test]
fn chroma_is_sampled_at_half_resolution() {
    // 4 x 6: luma 4 x 4, chroma planes 2 x 2.
    let y: Vec<u8> = vec![16; 16];
    let u: Vec<u8> = vec![128, 200, 128, 128];
    let v: Vec<u8> = vec![128, 128, 128, 200];
    let img = decode(&raster(4, 6, &y, &u, &v)).unwrap();
    let blue = yuv_to_rgb_exec(16, 200, 128);
    let red = yuv_to_rgb_exec(16, 128, 200);
    assert_eq!(blue, (0, 0, 124));
    assert_eq!(red, (98, 0, 0));
    for i in 0..4 {
        for j in 0..4 {
            let expected = match (i / 2, j / 2) {
                (0, 1) => blue,
                (1, 1) => red,
                _ => (0, 0, 0),
            };
            assert_eq!(img.pixel(i, j), expected, "pixel {} {}", i, j);
        }
    }
}

#[test]
fn header_with_comments() {
    let mut data = b"P5\n# made by a decoder\n# second line\n2 3\n255\n".to_vec();
    data.extend_from_slice(&[16, 16, 16, 16, 128, 128]);
    let hdr = parse_header(&data).unwrap();
    assert_eq!((hdr.width, hdr.height, hdr.max_val), (2, 3, 255));
    let img = decode(&data).unwrap();
    assert_eq!((img.width(), img.height()), (2, 2));
}

#[test]
fn bad_headers() {
    assert_eq!(decode(b"").err(), Some(DecodeError::BadHeader));
    assert_eq!(decode(b"P6\n2 3\n255\n\x10\x10\x10\x10\x80\x80").err(), Some(DecodeError::BadHeader));
    assert_eq!(decode(b"P5\nx 3\n255\n").err(), Some(DecodeError::BadHeader));
    assert_eq!(decode(b"P5\n2 3\n").err(), Some(DecodeError::BadHeader));
    assert_eq!(decode(b"P5\n2  3\n255\n").err(), Some(DecodeError::BadHeader));
    assert_eq!(
        decode(b"P5\n99999999999999999999999 3\n255\n").err(),
        Some(DecodeError::BadHeader)
    );
}

#[test]
fn sizes_the_chroma_cannot_cover_are_bad_headers() {
    assert_eq!(decode(&uniform(3, 6, 16, 128, 128)).err(), Some(DecodeError::BadHeader));
    let mut data = b"P5\n2 5\n255\n".to_vec();
    data.extend_from_slice(&[0; 10]);
    assert_eq!(decode(&data).err(), Some(DecodeError::BadHeader));
}

#[test]
fn short_bodies_are_truncated() {
    let mut data = uniform(4, 6, 16, 128, 128);
    data.pop();
    assert_eq!(decode(&data).err(), Some(DecodeError::TruncatedData));
    assert_eq!(decode(b"P5\n4 6\n255\n").err(), Some(DecodeError::TruncatedData));
    assert_eq!(
        decode(b"P5\n18446744073709551614 18446744073709551613\n255\n").err(),
        Some(DecodeError::TruncatedData)
    );
}

#[test]
fn rgb_and_rgba_bytes() {
    let img = RgbImage::from_pixels(2, 1, vec![(1, 2, 3), (4, 5, 6)]);
    assert_eq!(img.get_rgb(), vec![1, 2, 3, 4, 5, 6]);
    assert_eq!(img.get_rgba(), vec![1, 2, 3, 255, 4, 5, 6, 255]);
    let black = RgbImage::with_capacity(2, 2);
    assert_eq!(black.get_data(), &vec![(0, 0, 0); 4]);
    let p = Rgb::new(7, 8, 9);
    assert_eq!((p.r, p.g, p.b), (7, 8, 9));
}

#[test]
fn plain_ppm_text() {
    let img = RgbImage::from_pixels(1, 1, vec![(1, 20, 255)]);
    assert_eq!(img.to_ppm(), "P3\n1 1\n255\n1 20 255 ");
    let img = RgbImage::from_pixels(3, 2, vec![(255, 255, 255); 6]);
    let line = "255 255 255 ";
    let expected = format!("P3\n3 2\n255\n{}\n{}", line.repeat(5), line);
    assert_eq!(img.to_ppm(), expected);
    assert_eq!(RgbImage::with_capacity(0, 0).to_ppm(), "P3\n0 0\n255\n");
}
