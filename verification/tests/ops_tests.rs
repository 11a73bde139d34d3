use impro::error::ImproError;
use impro::ops::brit::brighten;
use impro::ops::conv::{conv, KType};
use impro::ops::crop::crop;
use impro::ops::doub::overlay;
use impro::ops::Kernel;

fn alpha_blend(i: u8, f: u8, a: u8) -> u8 {
    (i as f32 - (a as f32 / 255 as f32) * (i as f32 - f as f32)) as u8
}

fn pattern(n: usize, mul: usize, add: usize) -> Vec<u8> {
    (0..n).map(|i| ((i * mul + add) % 256) as u8).collect()
}

#[test]
fn crop_takes_the_window() {
    // 4x3 image whose pixel (r, c) is [r, c, 10*r + c, 255]
    let mut v = Vec::new();
    for r in 0..3u8 {
        for c in 0..4u8 {
            v.extend_from_slice(&[r, c, 10 * r + c, 255]);
        }
    }
    assert_eq!(crop(&mut v, (4, 3), (1, 1), (2, 2)), Ok(()));
    assert_eq!(v, vec![1, 1, 11, 255, 1, 2, 12, 255, 2, 1, 21, 255, 2, 2, 22, 255]);
}

#[test]
fn crop_full_window_is_identity() {
    let orig = pattern(4 * 5 * 3, 37, 11);
    let mut v = orig.clone();
    assert_eq!(crop(&mut v, (5, 3), (0, 0), (5, 3)), Ok(()));
    assert_eq!(v, orig);
}

#[test]
fn crop_of_crop_is_one_crop() {
    let orig = pattern(4 * 6 * 5, 13, 5);
    let mut a = orig.clone();
    crop(&mut a, (6, 5), (1, 2), (4, 3)).unwrap();
    crop(&mut a, (4, 3), (2, 1), (2, 2)).unwrap();
    let mut b = orig.clone();
    crop(&mut b, (6, 5), (3, 3), (2, 2)).unwrap();
    assert_eq!(a, b);
}

#[test]
fn crop_out_of_bounds_is_refused() {
    let orig = pattern(4 * 4 * 4, 7, 1);
    let mut v = orig.clone();
    assert_eq!(crop(&mut v, (4, 4), (3, 0), (2, 2)), Err(ImproError::CropOutOfBounds));
    assert_eq!(v, orig);
    assert_eq!(crop(&mut v, (4, 4), (0, 1), (4, 4)), Err(ImproError::CropOutOfBounds));
    assert_eq!(v, orig);
    assert_eq!(
        ImproError::CropOutOfBounds.message(),
        "Given arguments are not valid. Either axis, offset + length exceed original length."
    );
}

#[test]
fn crop_to_empty_window() {
    let mut v = pattern(4 * 2 * 2, 3, 0);
    assert_eq!(crop(&mut v, (2, 2), (2, 2), (0, 0)), Ok(()));
    assert!(v.is_empty());
}

#[test]
fn brighten_zero_is_identity() {
    let orig = pattern(256, 1, 0);
    let mut v = orig.clone();
    assert_eq!(brighten(&mut v, 0), Ok(()));
    assert_eq!(v, orig);
}

#[test]
fn brighten_values() {
    let mut v = vec![100, 200, 0, 255];
    brighten(&mut v, 127).unwrap();
    assert_eq!(v, vec![199, 255, 0, 255]);
    let mut v = vec![100, 200, 0, 255];
    brighten(&mut v, -128).unwrap();
    assert_eq!(v, vec![0, 0, 0, 0]);
    let mut v = vec![100, 200, 3, 255];
    brighten(&mut v, -64).unwrap();
    assert_eq!(v, vec![50, 100, 1, 127]);
}

#[test]
fn brighten_matches_float_scaling() {
    for pw in -128i8..=127 {
        let factor = 1.0 + (pw as f32) / 128.0;
        let mut v: Vec<u8> = (0..=255).collect();
        brighten(&mut v, pw).unwrap();
        for c in 0..=255u8 {
            assert_eq!(v[c as usize], (c as f32 * factor) as u8, "c={} pw={}", c, pw);
        }
    }
}

fn sharp() -> Kernel {
    Kernel::K3([0, -1, 0, -1, 5, -1, 0, -1, 0], 1)
}

#[test]
fn conv_sharpen_reduced() {
    let mut v = pattern(4 * 4 * 3, 37, 11);
    let dims = conv(&mut v, (4, 3), &sharp(), Some(KType::Reduced)).unwrap();
    // the height is counted from the width's remainder, as the dimensions rule says
    assert_eq!(dims, (2, 2));
    assert_eq!(v, vec![239, 20, 57, 94, 23, 60, 97, 134]);
}

#[test]
fn conv_sharpen_blocks() {
    let mut v = pattern(4 * 4 * 3, 37, 11);
    let dims = conv(&mut v, (4, 3), &sharp(), None).unwrap();
    assert_eq!(dims, (4, 3));
    let a = [239u8, 20, 57, 94];
    let b = [23u8, 60, 97, 134];
    let mut expect = Vec::new();
    for _ in 0..3 {
        expect.extend_from_slice(&a);
        expect.extend_from_slice(&a);
        expect.extend_from_slice(&a);
        expect.extend_from_slice(&b);
    }
    assert_eq!(v, expect);
}

#[test]
fn conv_sharpen_overlap() {
    let mut v = pattern(4 * 4 * 3, 37, 11);
    let dims = conv(&mut v, (4, 3), &sharp(), Some(KType::Overlap)).unwrap();
    assert_eq!(dims, (4, 3));
    assert_eq!(
        v,
        vec![
            239, 20, 57, 94, 131, 168, 205, 242, 171, 208, 245, 26, 23, 60, 97, 134, 143, 180, 217, 254, 35,
            72, 109, 146, 75, 112, 149, 186, 183, 220, 1, 38, 63, 100, 137, 174, 211, 248, 29, 66, 251, 32,
            69, 106, 103, 140, 177, 214
        ]
    );
}

#[test]
fn conv_blur_reduced() {
    let blur = Kernel::K5(
        [0, 1, 0, 1, 0, 1, 0, 3, 0, 1, 0, 3, 5, 3, 0, 1, 0, 3, 0, 1, 0, 1, 0, 1, 0],
        25,
    );
    let mut v = pattern(4 * 5 * 5, 37, 11);
    let dims = conv(&mut v, (5, 5), &blur, Some(KType::Reduced)).unwrap();
    assert_eq!(dims, (1, 1));
    assert_eq!(v, vec![148, 93, 109, 136]);
}

#[test]
fn conv_pixelate_reduced() {
    let pix = Kernel::K5(
        [4, 0, 2, 0, 4, 0, 0, 0, 0, 0, 2, 0, 1, 0, 2, 0, 0, 0, 0, 0, 4, 0, 2, 0, 4],
        25,
    );
    let mut v = pattern(4 * 6 * 2, 29, 3);
    let dims = conv(&mut v, (6, 2), &pix, Some(KType::Reduced)).unwrap();
    assert_eq!(dims, (2, 1));
    assert_eq!(v, vec![150, 159, 147, 114, 181, 56, 85, 114]);
}

fn red_filter() -> Kernel {
    let mut k = [0i32; 36];
    for cell in 0..9 {
        k[4 * cell] = 1;
        k[4 * cell + 3] = 1;
    }
    Kernel::Kc3(k, 9)
}

#[test]
fn conv_per_channel_kernel() {
    let mut v = pattern(4 * 3 * 2, 53, 7);
    let dims = conv(&mut v, (3, 2), &red_filter(), Some(KType::Overlap)).unwrap();
    assert_eq!(dims, (3, 2));
    assert_eq!(
        v,
        vec![102, 0, 0, 147, 101, 0, 0, 175, 87, 0, 0, 160, 87, 0, 0, 160, 57, 0, 0, 216, 43, 0, 0, 202]
    );
    let mut v = pattern(4 * 3 * 2, 53, 7);
    conv(&mut v, (3, 2), &red_filter(), None).unwrap();
    assert_eq!(v, [102u8, 0, 0, 147].repeat(6));
}

#[test]
fn conv_divides_toward_zero_and_keeps_low_byte() {
    let mut v = vec![10, 20, 30, 40];
    conv(&mut v, (1, 1), &Kernel::K3([0, 0, 0, 0, -3, 0, 0, 0, 0], -2), Some(KType::Overlap)).unwrap();
    assert_eq!(v, vec![15, 30, 45, 60]);
    let mut v = vec![10, 20, 30, 40];
    conv(&mut v, (1, 1), &Kernel::K3([0, 0, 0, 0, 3, 0, 0, 0, 0], -2), Some(KType::Overlap)).unwrap();
    assert_eq!(v, vec![241, 226, 211, 196]);
}

#[test]
fn conv_delta_overlap_is_identity() {
    let orig = pattern(4 * 7 * 4, 91, 2);
    let mut v = orig.clone();
    let dims = conv(&mut v, (7, 4), &Kernel::K3([1, 0, 0, 0, 0, 0, 0, 0, 0], 1), Some(KType::Overlap)).unwrap();
    assert_eq!(dims, (7, 4));
    assert_eq!(v, orig);
    let mut v = orig.clone();
    let mut k = [0i32; 100];
    for c in 0..4 {
        k[c] = 1;
    }
    conv(&mut v, (7, 4), &Kernel::Kc5(k, 1), Some(KType::Overlap)).unwrap();
    assert_eq!(v, orig);
}

#[test]
fn conv_blocks_agree_with_reduced() {
    let orig = pattern(4 * 7 * 5, 17, 9);
    let mut blocks = orig.clone();
    conv(&mut blocks, (7, 5), &sharp(), None).unwrap();
    let mut reduced = orig.clone();
    conv(&mut reduced, (7, 5), &sharp(), Some(KType::Reduced)).unwrap();
    // 3 columns and 2 rows of windows
    assert_eq!(reduced.len(), 4 * 3 * 2);
    for a in 0..2 {
        for b in 0..3 {
            for c in 0..4 {
                assert_eq!(blocks[4 * (7 * (3 * a) + 3 * b) + c], reduced[4 * (3 * a + b) + c]);
            }
        }
    }
}

#[test]
fn conv_empty_image() {
    let mut v: Vec<u8> = Vec::new();
    assert_eq!(conv(&mut v, (0, 0), &sharp(), Some(KType::Reduced)), Ok((0, 0)));
    assert!(v.is_empty());
}

#[test]
fn overlay_blends_covered_cells() {
    // 3x3 base of [100, 100, 100, 100]; 3x3 top of [200, 50, 0, alpha]
    let mut base = vec![100u8; 4 * 9];
    let mut top = Vec::new();
    for i in 0..9u8 {
        let alpha = [255u8, 0, 128][(i % 3) as usize];
        top.extend_from_slice(&[200, 50, 0, alpha]);
    }
    assert_eq!(overlay(&mut base, (3, 3), &top, (3, 3), (1, 1), &alpha_blend), Ok(()));
    // covered: rows 1..3 and columns 1..3 of the base, by the top's first two rows and columns
    for r in 0..3usize {
        for c in 0..3usize {
            let px = &base[4 * (3 * r + c)..4 * (3 * r + c) + 4];
            if r >= 1 && c >= 1 {
                let alpha = [255u8, 0, 128][(c - 1) % 3];
                let expect: Vec<u8> = [200u8, 50, 0, alpha]
                    .iter()
                    .map(|&f| alpha_blend(100, f, alpha))
                    .collect();
                assert_eq!(px, &expect[..]);
            } else {
                assert_eq!(px, &[100, 100, 100, 100]);
            }
        }
    }
    assert_eq!(&base[4 * 4..4 * 4 + 4], &[200, 50, 0, 255]);
    assert_eq!(&base[4 * 5..4 * 5 + 4], &[100, 100, 100, 100]);
}

#[test]
fn overlay_covers_whole_top() {
    let mut base = [10u8, 20, 30, 40].repeat(4);
    let top = [1u8, 2, 3, 255].repeat(4);
    assert_eq!(overlay(&mut base, (2, 2), &top, (2, 2), (0, 0), &alpha_blend), Ok(()));
    assert_eq!(base, [1u8, 2, 3, 255].repeat(4));
}

#[test]
fn overlay_negative_offset() {
    let mut base = vec![0u8; 4 * 9];
    let mut top = Vec::new();
    for i in 0..9u8 {
        top.extend_from_slice(&[i, i, i, 255]);
    }
    overlay(&mut base, (3, 3), &top, (3, 3), (-1, -1), &alpha_blend).unwrap();
    // base rows and columns 0..2 are covered by top cells shifted by one
    for r in 0..3usize {
        for c in 0..3usize {
            let px = &base[4 * (3 * r + c)..4 * (3 * r + c) + 4];
            if r < 2 && c < 2 {
                let t = (3 * (r + 1) + c + 1) as u8;
                assert_eq!(px, &[t, t, t, 255]);
            } else {
                assert_eq!(px, &[0, 0, 0, 0]);
            }
        }
    }
}

#[test]
fn overlay_outside_changes_nothing() {
    let orig = pattern(4 * 9, 31, 4);
    let mut base = orig.clone();
    let top = vec![255u8; 4 * 9];
    overlay(&mut base, (3, 3), &top, (3, 3), (3, 0), &alpha_blend).unwrap();
    assert_eq!(base, orig);
    overlay(&mut base, (3, 3), &top, (3, 3), (-3, 0), &alpha_blend).unwrap();
    assert_eq!(base, orig);
    overlay(&mut base, (3, 3), &top, (3, 3), (0, 3), &alpha_blend).unwrap();
    assert_eq!(base, orig);
}

#[test]
fn overlay_transparent_top_changes_nothing() {
    let orig = pattern(4 * 16, 19, 8);
    let mut base = orig.clone();
    let mut top = pattern(4 * 16, 7, 3);
    for i in 0..16 {
        top[4 * i + 3] = 0;
    }
    overlay(&mut base, (4, 4), &top, (4, 4), (0, 0), &alpha_blend).unwrap();
    assert_eq!(base, orig);
}

#[test]
fn overlay_float_blend_values() {
    assert_eq!(alpha_blend(100, 200, 128), 150);
    assert_eq!(alpha_blend(10, 250, 255), 250);
    assert_eq!(alpha_blend(37, 90, 0), 37);
    assert_eq!(alpha_blend(200, 0, 51), 160);
    let mut base = vec![200u8, 200, 200, 200];
    let top = vec![0u8, 0, 0, 51];
    overlay(&mut base, (1, 1), &top, (1, 1), (0, 0), &alpha_blend).unwrap();
    // a 1x1 top covers the one base pixel
    assert_eq!(base[..4], [160, 160, 160, alpha_blend(200, 51, 51)]);
    assert_eq!(base[3], 170);
}

#[test]
fn brighten_benchmark_pair() {
    // one 2x1 image: the crate scales by 253/128, the image crate adds 100
    let raw = vec![0, 100, 200, 50, 10, 128, 255, 7];
    let (ours, theirs) = impro::ops::brit::test_brighten(&raw, (2, 1));
    assert_eq!(ours, vec![0, 197, 255, 98, 19, 253, 255, 13]);
    assert_eq!(theirs, vec![100, 200, 255, 50, 110, 228, 255, 7]);
}

#[test]
fn crop_benchmark_pair_agree() {
    let (w, h) = (130u32, 80u32);
    let raw = pattern(4 * (w * h) as usize, 7, 3);
    let (ours, theirs) = impro::ops::crop::test_crop(&raw, (w, h));
    assert_eq!(ours.len(), 4 * 50 * 50);
    assert_eq!(ours, theirs);
    let first = 4 * (25 * w as usize + 75);
    assert_eq!(&theirs[0..4], &raw[first..first + 4]);
    assert_ne!(&theirs[..], &raw[..theirs.len()]);
}

#[test]
fn overlay_benchmark_pair() {
    // an opaque grey base of 60x60 and an opaque red top of 60x60
    let (w, h) = (60u32, 60u32);
    let base: Vec<u8> = (0..w * h).flat_map(|_| [10u8, 20, 30, 255]).collect();
    let top: Vec<u8> = (0..w * h).flat_map(|_| [200u8, 0, 0, 255]).collect();
    let (ours, theirs) = impro::ops::doub::test_overlay(&base, (w, h), &top, (w, h), &alpha_blend);
    let at = |v: &Vec<u8>, r: usize, c: usize| v[4 * (r * w as usize + c)..4 * (r * w as usize + c) + 4].to_vec();
    // the image crate puts the top at (25, 25): cells from there on are the top's color
    assert_eq!(at(&theirs, 30, 30), vec![200, 0, 0, 255]);
    assert_eq!(at(&theirs, 59, 59), vec![200, 0, 0, 255]);
    assert_eq!(at(&theirs, 10, 10), vec![10, 20, 30, 255]);
    // the crate puts it at (-50, -50): only cells before row and column 10 are covered
    assert_eq!(at(&ours, 0, 0), vec![200, 0, 0, 255]);
    assert_eq!(at(&ours, 9, 9), vec![200, 0, 0, 255]);
    assert_eq!(at(&ours, 10, 10), vec![10, 20, 30, 255]);
    assert_eq!(at(&ours, 9, 10), vec![10, 20, 30, 255]);
    assert_eq!(at(&ours, 30, 30), vec![10, 20, 30, 255]);
}

#[test]
fn conv_empty_image_with_zero_divisor() {
    let mut v: Vec<u8> = Vec::new();
    let k = Kernel::K3([1, 1, 1, 1, 1, 1, 1, 1, 1], 0);
    assert_eq!(conv(&mut v, (0, 3), &k, None), Ok((0, 3)));
    assert_eq!(conv(&mut v, (3, 0), &k, Some(KType::Overlap)), Ok((3, 0)));
    assert!(v.is_empty());
}

#[test]
fn normalised_kernel_keeps_flat_image_flat() {
    let p = [17u8, 200, 3, 255];
    let (w, h) = (7u32, 6u32);
    let flat: Vec<u8> = (0..w * h).flat_map(|_| p).collect();
    for kt in [None, Some(KType::Overlap), Some(KType::Reduced)] {
        let mut v = flat.clone();
        let reduced = kt.is_some();
        let dims = conv(&mut v, (w, h), &impro::ops::conv::blur_kn(), kt).unwrap();
        assert_eq!(v.len() % 4, 0);
        assert!(v.chunks(4).all(|px| px == p));
        if !reduced {
            assert_eq!(dims, (w, h));
        }
    }
}

#[test]
fn named_kernels() {
    match impro::ops::conv::sharp_kn() {
        Kernel::K3(k, d) => assert_eq!((k, d), ([0, -1, 0, -1, 5, -1, 0, -1, 0], 1)),
        _ => panic!("sharp kernel is 3x3"),
    }
    match impro::ops::conv::blur_kn() {
        Kernel::K5(k, d) => assert_eq!(k.iter().sum::<i32>(), d),
        _ => panic!("blur kernel is 5x5"),
    }
    match impro::ops::conv::pixel_kn() {
        Kernel::K5(k, d) => assert_eq!((k[0], k[12], d), (4, 1, 25)),
        _ => panic!("pixel kernel is 5x5"),
    }
    match impro::ops::conv::red_filter_kn() {
        Kernel::Kc3(k, d) => assert_eq!((k.len(), &k[0..4], d), (36, &[1, 0, 0, 1][..], 9)),
        _ => panic!("red filter is per channel"),
    }
}
