use braincut_blur::image_ops::{gaussian_blur_roi, pixelate_roi};
use braincut_blur::preview::{draw_rect_rgb, make_preview, preview_size};
use braincut_blur::resize::{resize_bgr, resize_bgr_into};
use braincut_blur::tracking::BBox;
use braincut_blur::tiles::{letterbox_fill, letterbox_supported, tile_grid, Region};

#[test]
fn verpixelung_nutzt_bloecke_nach_der_hoehe() {
    let (w, h) = (400usize, 200usize);
    let original: Vec<u8> = (0..w * h * 3).map(|i| (i % 251) as u8).collect();
    let mut frame = original.clone();
    // Box 300×90 → Blöcke von 30 px
    pixelate_roi(&mut frame, w, 50, 50, 350, 140);
    let px = |f: &[u8], x: usize, y: usize| f[(y * w + x) * 3..(y * w + x) * 3 + 3].to_vec();
    assert_eq!(px(&frame, 50, 50), px(&frame, 79, 79));
    assert_ne!(px(&frame, 50, 50), px(&frame, 80, 50));
    assert_ne!(px(&frame, 50, 50), px(&frame, 50, 80));
    assert_eq!(px(&frame, 10, 10), px(&original, 10, 10));
    assert_eq!(px(&frame, 360, 150), px(&original, 360, 150));
}

#[test]
fn pixelation_block_holds_its_mean() {
    // 4x2 frame, region of 2x2 pixels with a single block of 8 or more pixels.
    let w = 4usize;
    let mut frame = vec![0u8; w * 2 * 3];
    let vals = [10u8, 20, 30, 40];
    let pos = [(0usize, 0usize), (1, 0), (0, 1), (1, 1)];
    for (v, (x, y)) in vals.iter().zip(pos.iter()) {
        let i = (y * w + x) * 3;
        frame[i] = *v;
        frame[i + 1] = *v * 2;
        frame[i + 2] = *v + 1;
    }
    pixelate_roi(&mut frame, w, 0, 0, 2, 2);
    for (x, y) in pos {
        let i = (y * w + x) * 3;
        assert_eq!(&frame[i..i + 3], &[25, 50, 26]);
    }
    // Pixels outside the region keep their value.
    assert_eq!(&frame[(0 * w + 2) * 3..(0 * w + 2) * 3 + 3], &[0, 0, 0]);
}

#[test]
fn pixelation_ignores_tiny_regions() {
    let w = 10usize;
    let before: Vec<u8> = (0..w * 10 * 3).map(|i| (i % 200) as u8).collect();
    let mut frame = before.clone();
    pixelate_roi(&mut frame, w, 3, 3, 4, 8);
    assert_eq!(frame, before);
    pixelate_roi(&mut frame, w, 5, 5, 5, 9);
    assert_eq!(frame, before);
}

#[test]
fn gaussian_blur_of_flat_region_keeps_it_flat() {
    let w = 20usize;
    let mut frame = vec![77u8; w * 20 * 3];
    gaussian_blur_roi(&mut frame, w, 2, 2, 18, 18);
    assert!(frame.iter().all(|&b| b == 77));
}

#[test]
fn gaussian_blur_smooths_an_edge_and_keeps_the_outside() {
    let w = 16usize;
    let h = 16usize;
    let mut frame = vec![0u8; w * h * 3];
    for y in 0..h {
        for x in 8..w {
            let i = (y * w + x) * 3;
            frame[i] = 240;
            frame[i + 1] = 240;
            frame[i + 2] = 240;
        }
    }
    let before = frame.clone();
    gaussian_blur_roi(&mut frame, w, 4, 4, 12, 12);
    let at = |f: &[u8], x: usize, y: usize| f[(y * w + x) * 3];
    // Next to the edge the values are mixed.
    assert!(at(&frame, 7, 8) > 0 && at(&frame, 7, 8) < 240);
    assert!(at(&frame, 8, 8) > 0 && at(&frame, 8, 8) < 240);
    // Outside the region nothing changes.
    assert_eq!(at(&frame, 0, 0), at(&before, 0, 0));
    assert_eq!(at(&frame, 13, 13), at(&before, 13, 13));
    assert_eq!(at(&frame, 7, 2), at(&before, 7, 2));
}

#[test]
fn gaussian_blur_keeps_each_channel_in_its_range() {
    let w = 12usize;
    let h = 10usize;
    let mut frame: Vec<u8> = (0..w * h * 3).map(|i| ((i * 37) % 256) as u8).collect();
    let (x, y, x2, y2) = (2usize, 1usize, 10usize, 9usize);
    let in_roi = |k: usize| {
        let p = k / 3;
        let (px, py) = (p % w, p / w);
        x <= px && px < x2 && y <= py && py < y2
    };
    let range = |f: &[u8], c: usize| {
        let vals: Vec<u8> = (0..f.len()).filter(|&k| k % 3 == c && in_roi(k)).map(|k| f[k]).collect();
        (*vals.iter().min().unwrap(), *vals.iter().max().unwrap())
    };
    let before: Vec<(u8, u8)> = (0..3).map(|c| range(&frame, c)).collect();
    gaussian_blur_roi(&mut frame, w, x, y, x2, y2);
    for c in 0..3 {
        let (lo, hi) = before[c];
        for k in (0..frame.len()).filter(|&k| k % 3 == c && in_roi(k)) {
            assert!(lo <= frame[k] && frame[k] <= hi);
        }
    }
}

#[test]
fn gaussian_blur_ignores_small_regions() {
    let w = 10usize;
    let before: Vec<u8> = (0..w * 10 * 3).map(|i| (i % 97) as u8).collect();
    let mut frame = before.clone();
    gaussian_blur_roi(&mut frame, w, 2, 2, 5, 9);
    assert_eq!(frame, before);
}

#[test]
fn resize_picks_nearest_pixels() {
    // 2x2 source with distinct pixels, scaled to 4x2.
    let src: Vec<u8> = (0..12).collect();
    let dst = resize_bgr(&src, 2, 2, 4, 2);
    assert_eq!(dst.len(), 24);
    assert_eq!(&dst[0..3], &src[0..3]);
    assert_eq!(&dst[3..6], &src[0..3]);
    assert_eq!(&dst[6..9], &src[3..6]);
    assert_eq!(&dst[12..15], &src[6..9]);
    assert_eq!(&dst[21..24], &src[9..12]);
}

#[test]
fn resize_into_keeps_the_bytes_past_the_image() {
    let src: Vec<u8> = vec![5; 4 * 4 * 3];
    let mut dst = vec![9u8; 2 * 2 * 3 + 4];
    resize_bgr_into(&src, 4, 4, 2, 2, &mut dst);
    assert!(dst[..12].iter().all(|&b| b == 5));
    assert!(dst[12..].iter().all(|&b| b == 9));
}

#[test]
fn rectangle_outline_is_drawn_inwards() {
    let (pw, ph) = (10usize, 10usize);
    let mut buf = vec![0u8; pw * ph * 3];
    draw_rect_rgb(&mut buf, pw, ph, 2, 2, 8, 8, [1, 2, 3], 2);
    let at = |x: usize, y: usize| buf[(y * pw + x) * 3..(y * pw + x) * 3 + 3].to_vec();
    assert_eq!(at(2, 2), vec![1, 2, 3]);
    assert_eq!(at(3, 5), vec![1, 2, 3]);
    assert_eq!(at(7, 7), vec![1, 2, 3]);
    assert_eq!(at(6, 6), vec![1, 2, 3]);
    assert_eq!(at(5, 5), vec![0, 0, 0]);
    assert_eq!(at(4, 4), vec![0, 0, 0]);
    assert_eq!(at(8, 8), vec![0, 0, 0]);
    assert_eq!(at(1, 1), vec![0, 0, 0]);
}

#[test]
fn rectangle_outline_is_clipped_to_the_image() {
    let (pw, ph) = (6usize, 4usize);
    let mut buf = vec![0u8; pw * ph * 3 + 3];
    draw_rect_rgb(&mut buf, pw, ph, 3, 1, 20, 20, [9, 9, 9], 1);
    assert_eq!(&buf[(1 * pw + 5) * 3..(1 * pw + 5) * 3 + 3], &[9, 9, 9]);
    assert_eq!(&buf[(3 * pw + 3) * 3..(3 * pw + 3) * 3 + 3], &[9, 9, 9]);
    assert_eq!(&buf[pw * ph * 3..], &[0, 0, 0]);
}

#[test]
fn preview_is_at_most_960_wide() {
    assert_eq!(preview_size(1920, 1080), (960, 540));
    assert_eq!(preview_size(640, 480), (640, 480));
    assert_eq!(preview_size(0, 0), (1, 1));
    assert_eq!(preview_size(4000, 1), (960, 1));
}

#[test]
fn preview_is_a_jpeg() {
    let (w, h) = (64usize, 48usize);
    let frame: Vec<u8> = (0..w * h * 3).map(|i| (i % 256) as u8).collect();
    let faces = [BBox { x: 5, y: 5, x2: 20, y2: 20 }];
    let plates = [BBox { x: 30, y: 30, x2: 60, y2: 40 }];
    let jpeg = make_preview(&frame, w, h, &faces, &plates);
    assert!(jpeg.len() > 100);
    assert_eq!(&jpeg[0..2], &[0xFF, 0xD8]);
    assert_eq!(&jpeg[jpeg.len() - 2..], &[0xFF, 0xD9]);
}

/// Tile side on an axis of `len` pixels split in `n`, with `overlap` (a
/// fraction) added, as the detection pipeline computes it.
fn tile_side(len: usize, n: usize, overlap: f32) -> usize {
    let base = len / n;
    ((base as f32 * (1.0 + overlap)) as usize).min(len).max(1)
}

fn tiles(fw: usize, fh: usize, cols: usize, rows: usize, overlap: f32) -> Vec<Region> {
    let (c, r) = (cols.max(1), rows.max(1));
    tile_grid(fw, fh, cols, rows, tile_side(fw, c, overlap), tile_side(fh, r, overlap))
}

#[test]
fn kacheln_decken_das_bild_mit_ueberlappung_ab() {
    let t = tiles(3840, 2160, 3, 2, 0.15);
    assert_eq!(t.len(), 6);
    assert!(t.iter().all(|r| r.x0 + r.w <= 3840 && r.y0 + r.h <= 2160));
    assert_eq!(t[0].x0, 0);
    assert_eq!(t[2].x0 + t[2].w, 3840);
    assert_eq!(t[5].y0 + t[5].h, 2160);
    // Nachbarkacheln überlappen sich
    assert!(t[0].x0 + t[0].w > t[1].x0);
    assert!(t[0].y0 + t[0].h > t[3].y0);
}

#[test]
fn eine_kachel_ist_das_ganze_bild() {
    assert_eq!(tiles(3840, 2160, 1, 1, 0.15), vec![Region { x0: 0, y0: 0, w: 3840, h: 2160 }]);
}

#[test]
fn zero_tiles_count_as_one() {
    assert_eq!(tile_grid(100, 100, 0, 0, 100, 100).len(), 1);
}

#[test]
fn letterbox_centres_the_region() {
    // 4x2 frame, pixel value = x + 10*y in every channel.
    let fw = 4usize;
    let mut frame = vec![0u8; fw * 2 * 3];
    for y in 0..2 {
        for x in 0..4 {
            let i = (y * fw + x) * 3;
            frame[i..i + 3].copy_from_slice(&[(x + 10 * y) as u8; 3]);
        }
    }
    let region = Region { x0: 0, y0: 0, w: 4, h: 2 };
    assert!(letterbox_supported(frame.len(), 4 * 4 * 3, fw, &region, 4, 4, 2));
    let mut buf = vec![7u8; 4 * 4 * 3 + 2];
    let (px, py) = letterbox_fill(&frame, fw, &region, 4, 114, 4, 2, &mut buf);
    assert_eq!((px, py), (0, 1));
    let at = |x: usize, y: usize| buf[(y * 4 + x) * 3];
    assert_eq!(at(0, 0), 114);
    assert_eq!(at(3, 3), 114);
    assert_eq!(at(0, 1), 0);
    assert_eq!(at(3, 1), 3);
    assert_eq!(at(2, 2), 12);
    assert_eq!(&buf[48..], &[7, 7]);
    assert!(!letterbox_supported(frame.len(), 10, fw, &region, 4, 4, 2));
}
