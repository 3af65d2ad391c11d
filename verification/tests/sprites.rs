use tile_puzzle::app::{
    corner_sprite, currently_selected_sprite, long_sprite, one_sprite, three_sprite, tblr_sprite,
};
use tile_puzzle::sprite::{RotationPlan, Size, Sprite, SpriteError};

/// A small deterministic generator of test data.
struct Lcg(u64);

impl Lcg {
    fn next(&mut self) -> u64 {
        self.0 = self.0.wrapping_mul(6364136223846793005).wrapping_add(1442695040888963407);
        self.0 >> 33
    }
}

fn sprite_of_size(w: u32, h: u32, seed: u64) -> Sprite {
    let mut rng = Lcg(seed);
    let pixels = (0..w * h * 4).map(|_| (rng.next() % 256) as u8).collect();
    Sprite::new(pixels, Size { x: w, y: h })
}

fn at(pixels: &[u8], w: u32, x: u32, y: u32, c: u32) -> u8 {
    pixels[((y * w + x) * 4 + c) as usize]
}

/// Shears each line in place, pixel by pixel in the direction of the shift,
/// clearing the pixels that move.
fn shear_in_place(pixels: &mut [u8], m: u32, offsets: &[i32], rows: bool) {
    for line in 0..m {
        let offset = offsets[line as usize];
        let order: Vec<u32> = if offset > 0 { (0..m).rev().collect() } else { (0..m).collect() };
        for p in order {
            let np = p as i32 + offset;
            if np >= 0 && np < m as i32 {
                let (old, new) = if rows {
                    ((line * m + p) as usize * 4, (line * m + np as u32) as usize * 4)
                } else {
                    ((p * m + line) as usize * 4, (np as u32 * m + line) as usize * 4)
                };
                if old == new {
                    continue;
                }
                for i in 0..4 {
                    pixels[new + i] = pixels[old + i];
                    pixels[old + i] = 0;
                }
            }
        }
    }
}

/// Rotation by the steps of a plan, written with in-place shears.
fn rotate_reference(s: &Sprite, plan: &RotationPlan) -> Vec<u8> {
    let m = plan.max_width;
    let mut pixels = vec![0u8; (m * m * 4) as usize];
    let mx = (m - s.size.x) / 2;
    let my = (m - s.size.y) / 2;
    for y in 0..s.size.y {
        for x in 0..s.size.x {
            for i in 0..4 {
                pixels[(((y + my) * m + x + mx) * 4 + i) as usize] = at(&s.pixels, s.size.x, x, y, i);
            }
        }
    }
    let mut temp = vec![0u8; (m * m * 4) as usize];
    for _ in 0..plan.right_angles {
        for x in 0..m {
            for y in 0..m {
                let nx = m - 1 - y;
                let ny = x;
                for i in 0..4 {
                    temp[((ny * m + nx) * 4 + i) as usize] = pixels[((y * m + x) * 4 + i) as usize];
                }
            }
        }
        pixels = temp.clone();
    }
    shear_in_place(&mut pixels, m, &plan.row_shifts, true);
    shear_in_place(&mut pixels, m, &plan.column_shifts, false);
    shear_in_place(&mut pixels, m, &plan.row_shifts, true);
    let (nw, nh) = (plan.new_size.x, plan.new_size.y);
    let lx = (m - nw) / 2;
    let ly = (m - nh) / 2;
    let mut out = vec![0u8; (nw * nh * 4) as usize];
    for y in 0..nh {
        for x in 0..nw {
            for i in 0..4 {
                out[((y * nw + x) * 4 + i) as usize] = pixels[(((y + ly) * m + x + lx) * 4 + i) as usize];
            }
        }
    }
    out
}

#[test]
fn new_keeps_pixels_and_size() {
    let s = Sprite::new(vec![1, 2, 3, 4], Size { x: 1, y: 1 });
    assert_eq!(s.pixels, vec![1, 2, 3, 4]);
    assert_eq!(s.size, Size { x: 1, y: 1 });
}

#[test]
fn scale_by_nothing_is_identity() {
    let s = sprite_of_size(3, 2, 7);
    let r = s.scale(Size { x: 3, y: 2 }, &vec![0, 1, 2], &vec![0, 1]);
    assert_eq!(r.pixels, s.pixels);
    assert_eq!(r.size, s.size);
}

#[test]
fn scale_samples_the_given_pixels() {
    let s = sprite_of_size(3, 3, 11);
    let r = s.scale(Size { x: 2, y: 4 }, &vec![2, 0], &vec![0, 0, 1, 2]);
    assert_eq!(r.size, Size { x: 2, y: 4 });
    assert_eq!(r.pixels.len(), 2 * 4 * 4);
    for y in 0..4u32 {
        for x in 0..2u32 {
            let sx = [2, 0][x as usize];
            let sy = [0, 0, 1, 2][y as usize];
            for c in 0..4 {
                assert_eq!(at(&r.pixels, 2, x, y, c), at(&s.pixels, 3, sx, sy, c));
            }
        }
    }
}

fn plan(right_angles: i32, new_size: Size, max_width: u32, rows: Vec<i32>, cols: Vec<i32>) -> RotationPlan {
    RotationPlan { right_angles, new_size, max_width, row_shifts: rows, column_shifts: cols }
}

#[test]
fn rotation_by_nothing_is_identity() {
    let s = sprite_of_size(3, 2, 5);
    let p = plan(0, Size { x: 3, y: 2 }, 6, vec![0; 6], vec![0; 6]);
    let r = s.rotate(&p);
    assert_eq!(r.pixels, s.pixels);
    assert_eq!(r.size, s.size);
}

#[test]
fn quarter_turn_of_a_square() {
    let s = sprite_of_size(2, 2, 9);
    let p = plan(1, Size { x: 2, y: 2 }, 2, vec![0; 2], vec![0; 2]);
    let r = s.rotate(&p);
    // The pixel at (x, y) moves to (1 - y, x).
    for y in 0..2u32 {
        for x in 0..2u32 {
            for c in 0..4 {
                assert_eq!(at(&r.pixels, 2, 1 - y, x, c), at(&s.pixels, 2, x, y, c));
            }
        }
    }
    let full = s.rotate(&plan(4, Size { x: 2, y: 2 }, 2, vec![0; 2], vec![0; 2]));
    assert_eq!(full.pixels, s.pixels);
    let none = s.rotate(&plan(-3, Size { x: 2, y: 2 }, 2, vec![0; 2], vec![0; 2]));
    assert_eq!(none.pixels, s.pixels);
}

#[test]
fn rotation_matches_in_place_shears() {
    let mut rng = Lcg(42);
    for round in 0..200u64 {
        let w = 1 + (rng.next() % 5) as u32;
        let h = 1 + (rng.next() % 5) as u32;
        let m = w.max(h) + (rng.next() % 4) as u32;
        let nw = (rng.next() % (m as u64 + 1)) as u32;
        let nh = (rng.next() % (m as u64 + 1)) as u32;
        let turns = (rng.next() % 6) as i32 - 1;
        let span = m as i64 * 2 + 1;
        let rows: Vec<i32> = (0..m).map(|_| (rng.next() as i64 % span - m as i64) as i32).collect();
        let cols: Vec<i32> = (0..m).map(|_| (rng.next() as i64 % span - m as i64) as i32).collect();
        let s = sprite_of_size(w, h, round);
        let p = plan(turns, Size { x: nw, y: nh }, m, rows, cols);
        let r = s.rotate(&p);
        assert_eq!(r.size, Size { x: nw, y: nh });
        assert_eq!(r.pixels, rotate_reference(&s, &p), "round {round}");
    }
}

#[test]
fn pattern_sprites() {
    let red = [255u8, 0, 0, 255];
    let check = |s: Sprite, lit: &[(u32, u32)]| {
        assert_eq!(s.size, Size { x: 3, y: 3 });
        for y in 0..3u32 {
            for x in 0..3u32 {
                let want = if lit.contains(&(x, y)) { red } else { [0; 4] };
                for c in 0..4 {
                    assert_eq!(at(&s.pixels, 3, x, y, c), want[c as usize]);
                }
            }
        }
    };
    check(tblr_sprite(), &[(0, 1), (1, 1), (2, 1), (1, 0), (1, 2)]);
    check(one_sprite(), &[(1, 0), (1, 1)]);
    check(corner_sprite(), &[(1, 0), (1, 1), (2, 1)]);
    check(long_sprite(), &[(0, 1), (1, 1), (2, 1)]);
    check(three_sprite(), &[(0, 1), (1, 1), (2, 1), (1, 0)]);
    let selected = currently_selected_sprite();
    assert_eq!(selected.size, Size { x: 1, y: 1 });
    assert_eq!(selected.pixels, vec![0, 0, 255, 255]);
}

#[test]
fn decoding_a_png() {
    let raw = vec![10u8, 20, 30, 255, 40, 50, 60, 128];
    let img = image::RgbaImage::from_raw(2, 1, raw.clone()).unwrap();
    let mut bytes = Vec::new();
    img.write_to(&mut std::io::Cursor::new(&mut bytes), image::ImageFormat::Png).unwrap();
    let s = Sprite::from("tile.png", &bytes).unwrap();
    assert_eq!(s.size, Size { x: 2, y: 1 });
    assert_eq!(s.pixels, raw);
}

#[test]
fn decoding_garbage_fails() {
    let r = Sprite::from("tile.png", &[1, 2, 3]);
    assert!(matches!(r, Err(SpriteError::Image(_))));
}

#[test]
fn the_extension_decides_the_format() {
    let raw = vec![10u8, 20, 30, 255];
    let img = image::RgbaImage::from_raw(1, 1, raw.clone()).unwrap();
    let mut bytes = Vec::new();
    img.write_to(&mut std::io::Cursor::new(&mut bytes), image::ImageFormat::Png).unwrap();
    // The same PNG bytes under a name without a known image extension.
    let r = Sprite::from("tile.txt", &bytes);
    assert!(matches!(
        r,
        Err(SpriteError::Image(image::ImageError::Unsupported(_)))
    ));
    let r = Sprite::from("tile", &bytes);
    assert!(matches!(
        r,
        Err(SpriteError::Image(image::ImageError::Unsupported(_)))
    ));
    assert_eq!(Sprite::from("TILE.PNG", &bytes).unwrap().pixels, raw);
}
