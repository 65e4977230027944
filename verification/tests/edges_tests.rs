use imageproc::edges::{
    canny, non_maximum_suppression, CannyPixels, Direction, LEVEL_112_5, LEVEL_157_5, LEVEL_22_5, LEVEL_67_5,
};
use imageproc::hysteresis::hysteresis;
use imageproc::traversal::{BACKGROUND, FOREGROUND};
use imageproc::raster::Image;

fn magnitudes(width: u32, height: u32, rows: &[&[u32]]) -> Image<u32> {
    let mut data = Vec::new();
    for row in rows {
        data.extend_from_slice(row);
    }
    Image::from_raw(width, height, data).unwrap()
}

fn foreground(img: &Image<u8>) -> Vec<(u32, u32)> {
    let mut found = Vec::new();
    for y in 0..img.height() {
        for x in 0..img.width() {
            if img.get_pixel(x, y) == FOREGROUND {
                found.push((x, y));
            }
        }
    }
    found
}

fn drain(mut pixels: CannyPixels) -> Vec<(u32, u32)> {
    let mut found = Vec::new();
    while let Some(p) = pixels.next() {
        found.push(p);
    }
    assert_eq!(pixels.next(), None);
    found
}

fn sorted(mut v: Vec<(u32, u32)>) -> Vec<(u32, u32)> {
    v.sort();
    v
}

/// Magnitude levels and orientations of an image, from 3x3 Sobel gradients.
fn gradient_field(image: &Image<u8>) -> (Image<u32>, Image<Direction>) {
    let (w, h) = (image.width(), image.height());
    let at = |x: i64, y: i64| -> i32 {
        let cx = x.clamp(0, w as i64 - 1) as u32;
        let cy = y.clamp(0, h as i64 - 1) as u32;
        image.get_pixel(cx, cy) as i32
    };
    let mut mags = Vec::new();
    let mut dirs = Vec::new();
    for y in 0..h as i64 {
        for x in 0..w as i64 {
            let gx = (at(x + 1, y - 1) + 2 * at(x + 1, y) + at(x + 1, y + 1))
                - (at(x - 1, y - 1) + 2 * at(x - 1, y) + at(x - 1, y + 1));
            let gy = (at(x - 1, y + 1) + 2 * at(x, y + 1) + at(x + 1, y + 1))
                - (at(x - 1, y - 1) + 2 * at(x, y - 1) + at(x + 1, y - 1));
            mags.push((gx as f32).hypot(gy as f32).to_bits());
            let mut angle = (gy as f32).atan2(gx as f32).to_degrees();
            if angle < 0.0 {
                angle += 180.0;
            }
            dirs.push(Direction::from_angle_level(angle.to_bits()));
        }
    }
    (Image::from_raw(w, h, mags).unwrap(), Image::from_raw(w, h, dirs).unwrap())
}

fn two_rectangles(width: u32, height: u32) -> Image<u8> {
    let mut image = Image::from_pixel(width, height, 0u8);
    for y in height / 4..height / 4 + height / 2 {
        for x in width / 4..width / 4 + width / 2 {
            image.put_pixel(x, y, 255);
        }
    }
    for y in 9..12 {
        for x in 9..12 {
            image.put_pixel(x, y, 255);
        }
    }
    image
}

#[test]
fn suppression_keeps_a_tie() {
    let g = magnitudes(3, 3, &[&[0, 0, 0], &[7, 7, 3], &[0, 0, 0]]);
    let d = Image::from_pixel(3, 3, Direction::Deg0);
    let out = non_maximum_suppression(&g, &d);
    assert_eq!(out.get_pixel(1, 1), 7);
}

#[test]
fn suppression_zeroes_a_weaker_pixel() {
    let g = magnitudes(3, 3, &[&[0, 0, 0], &[8, 7, 3], &[0, 0, 0]]);
    let d = Image::from_pixel(3, 3, Direction::Deg0);
    let out = non_maximum_suppression(&g, &d);
    assert_eq!(out.get_pixel(1, 1), 0);
}

#[test]
fn suppression_compares_along_each_orientation() {
    // The centre is 5; exactly one neighbour pair holds a stronger pixel.
    let rows: [&[u32]; 3] = [&[1, 2, 9], &[3, 5, 4], &[1, 2, 1]];
    let g = magnitudes(3, 3, &rows);
    let kept = |dir: Direction| non_maximum_suppression(&g, &Image::from_pixel(3, 3, dir)).get_pixel(1, 1);
    assert_eq!(kept(Direction::Deg0), 5);
    assert_eq!(kept(Direction::Deg45), 5);
    assert_eq!(kept(Direction::Deg90), 5);
    assert_eq!(kept(Direction::Deg135), 0);
    let rows: [&[u32]; 3] = [&[9, 2, 1], &[3, 5, 4], &[1, 2, 1]];
    let g = magnitudes(3, 3, &rows);
    let kept = |dir: Direction| non_maximum_suppression(&g, &Image::from_pixel(3, 3, dir)).get_pixel(1, 1);
    assert_eq!(kept(Direction::Deg45), 0);
    assert_eq!(kept(Direction::Deg135), 5);
    let rows: [&[u32]; 3] = [&[1, 9, 1], &[3, 5, 4], &[1, 2, 1]];
    let g = magnitudes(3, 3, &rows);
    let kept = |dir: Direction| non_maximum_suppression(&g, &Image::from_pixel(3, 3, dir)).get_pixel(1, 1);
    assert_eq!(kept(Direction::Deg90), 0);
    assert_eq!(kept(Direction::Deg0), 5);
}

#[test]
fn suppression_clears_the_outer_ring() {
    let g = Image::from_pixel(5, 4, 9u32);
    let d = Image::from_pixel(5, 4, Direction::Deg90);
    let out = non_maximum_suppression(&g, &d);
    for y in 0..4 {
        for x in 0..5 {
            let interior = x >= 1 && x < 4 && y >= 1 && y < 3;
            assert_eq!(out.get_pixel(x, y), if interior { 9 } else { 0 });
        }
    }
}

#[test]
fn suppression_of_a_tiny_raster_is_all_zero() {
    let g = Image::from_pixel(2, 5, 9u32);
    let d = Image::from_pixel(2, 5, Direction::Deg0);
    let out = non_maximum_suppression(&g, &d);
    assert_eq!(out.into_raw(), vec![0u32; 10]);
}

#[test]
fn hysteresis_absorbs_weak_pixels_linked_to_a_seed() {
    let t = magnitudes(
        5,
        5,
        &[&[0, 0, 0, 0, 0], &[0, 9, 4, 0, 0], &[0, 0, 0, 4, 0], &[0, 4, 0, 0, 0], &[0, 0, 0, 0, 0]],
    );
    let out = hysteresis(&t, 3, 8);
    assert_eq!(foreground(&out), vec![(1, 1), (2, 1), (3, 2)]);
    assert_eq!(out.get_pixel(1, 3), BACKGROUND);
}

#[test]
fn hysteresis_does_not_propagate_north_or_north_east() {
    let t = magnitudes(
        5,
        5,
        &[&[0, 0, 0, 0, 0], &[0, 0, 4, 4, 0], &[0, 0, 9, 0, 0], &[0, 0, 0, 0, 0], &[0, 0, 0, 0, 0]],
    );
    let out = hysteresis(&t, 3, 8);
    assert_eq!(foreground(&out), vec![(2, 2)]);
    // North-west is among the offsets.
    let t = magnitudes(
        5,
        5,
        &[&[0, 0, 0, 0, 0], &[0, 4, 0, 0, 0], &[0, 0, 9, 0, 0], &[0, 0, 0, 0, 0], &[0, 0, 0, 0, 0]],
    );
    let out = hysteresis(&t, 3, 8);
    assert_eq!(foreground(&out), vec![(1, 1), (2, 2)]);
}

#[test]
fn hysteresis_without_a_seed_is_all_background() {
    let t = Image::from_pixel(6, 6, 5u32);
    let out = hysteresis(&t, 3, 8);
    assert_eq!(out.into_raw(), vec![BACKGROUND; 36]);
}

#[test]
fn hysteresis_ignores_seeds_on_the_outer_ring() {
    let mut t = Image::from_pixel(4, 4, 0u32);
    t.put_pixel(0, 1, 9);
    t.put_pixel(3, 3, 9);
    let out = hysteresis(&t, 3, 8);
    assert_eq!(foreground(&out), Vec::<(u32, u32)>::new());
}

#[test]
fn hysteresis_with_zero_low_threshold_stays_inside_the_raster() {
    let mut t = Image::from_pixel(3, 3, 0u32);
    t.put_pixel(1, 1, 9);
    let out = hysteresis(&t, 0, 8);
    assert_eq!(out.width(), 3);
    assert_eq!(out.height(), 3);
    assert_eq!(out.get_pixel(1, 1), FOREGROUND);
    assert_eq!(out.get_pixel(0, 0), FOREGROUND);
    assert_eq!(out.get_pixel(2, 2), FOREGROUND);
}

#[test]
fn hysteresis_of_a_tiny_raster_is_all_background() {
    let t = Image::from_pixel(2, 2, 100u32);
    let out = hysteresis(&t, 1, 2);
    assert_eq!(out.into_raw(), vec![BACKGROUND; 4]);
}

#[test]
fn constant_raster_gives_all_background() {
    let image = Image::from_pixel(12, 9, 77u8);
    let (g, d) = gradient_field(&image);
    for (low, high) in [(1u32, 1u32), (1, 50), (250.0f32.to_bits(), 300.0f32.to_bits())] {
        let out = canny(&g, &d, low, high);
        assert_eq!(out.into_raw(), vec![BACKGROUND; 12 * 9]);
    }
}

#[test]
fn canny_outlines_two_rectangles() {
    let image = two_rectangles(250, 250);
    let (g, d) = gradient_field(&image);
    let low = 250.0f32.to_bits();
    let high = 300.0f32.to_bits();
    let out = canny(&g, &d, low, high);
    let again = canny(&g, &d, low, high);
    assert_eq!(out.width(), 250);
    assert_eq!(out.height(), 250);
    let edges = sorted(foreground(&out));
    assert_eq!(edges, sorted(foreground(&again)));
    assert!(!edges.is_empty());
    for &(x, y) in &edges {
        let near = |v: u32, a: u32, b: u32| v + 1 >= a && v <= b;
        let on_large = (near(x, 62, 63) || near(x, 187, 188) || near(y, 62, 63) || near(y, 187, 188))
            && x >= 61 && x <= 188 && y >= 61 && y <= 188;
        let on_small = x >= 8 && x <= 12 && y >= 8 && y <= 12;
        assert!(on_large || on_small, "unexpected edge at ({}, {})", x, y);
    }
    assert!(edges.iter().any(|&(x, y)| x >= 8 && x <= 12 && y >= 8 && y <= 12));
    assert!(edges.iter().any(|&(x, y)| x >= 61 && y >= 61));
    for y in 0..250 {
        for x in 0..250 {
            let v = out.get_pixel(x, y);
            assert!(v == FOREGROUND || v == BACKGROUND);
            if x == 0 || y == 0 || x == 249 || y == 249 {
                assert_eq!(v, BACKGROUND);
            }
        }
    }
    assert_eq!(sorted(drain(CannyPixels::new(&g, &d, low, high))), edges);
}

#[test]
fn lazy_pixels_are_the_eager_foreground_without_repeats() {
    let image = two_rectangles(40, 32);
    let (g, d) = gradient_field(&image);
    let low = 100.0f32.to_bits();
    let high = 400.0f32.to_bits();
    let eager = sorted(foreground(&canny(&g, &d, low, high)));
    let lazy = drain(CannyPixels::new(&g, &d, low, high));
    let mut unique = sorted(lazy.clone());
    unique.dedup();
    assert_eq!(unique.len(), lazy.len());
    assert_eq!(unique, eager);
    assert!(!eager.is_empty());
}

#[test]
fn lazy_pixels_come_in_the_order_of_discovery() {
    let g = magnitudes(
        5,
        5,
        &[&[0, 0, 0, 0, 0], &[0, 9, 4, 0, 0], &[0, 0, 0, 4, 0], &[0, 0, 0, 0, 0], &[0, 0, 0, 0, 0]],
    );
    let d = Image::from_pixel(5, 5, Direction::Deg90);
    let pixels = CannyPixels::new(&g, &d, 3, 8);
    assert_eq!(drain(pixels), vec![(1, 1), (2, 1), (3, 2)]);
}

/// The order in which a plain scan with an explicit stack marks the pixels.
fn marking_order(t: &Image<u32>, low: u32, high: u32) -> Vec<(u32, u32)> {
    let (w, h) = (t.width() as i64, t.height() as i64);
    let mut seen = vec![false; (w * h) as usize];
    let mut order = Vec::new();
    for y in 1..h - 1 {
        for x in 1..w - 1 {
            if t.get_pixel(x as u32, y as u32) >= high && !seen[(y * w + x) as usize] {
                seen[(y * w + x) as usize] = true;
                order.push((x as u32, y as u32));
                let mut stack = vec![(x, y)];
                while let Some((nx, ny)) = stack.pop() {
                    for (dx, dy) in [(1, 0), (1, 1), (0, 1), (-1, -1), (-1, 0), (-1, 1)] {
                        let (qx, qy) = (nx + dx, ny + dy);
                        if qx < 0 || qy < 0 || qx >= w || qy >= h {
                            continue;
                        }
                        if t.get_pixel(qx as u32, qy as u32) >= low && !seen[(qy * w + qx) as usize] {
                            seen[(qy * w + qx) as usize] = true;
                            order.push((qx as u32, qy as u32));
                            stack.push((qx, qy));
                        }
                    }
                }
            }
        }
    }
    order
}

#[test]
fn lazy_pixels_follow_the_marking_order_of_the_scan() {
    let image = two_rectangles(40, 32);
    let (g, d) = gradient_field(&image);
    let thinned = non_maximum_suppression(&g, &d);
    for (low, high) in [(1.0f32, 1.0f32), (100.0, 400.0), (250.0, 300.0), (600.0, 900.0)] {
        let (low, high) = (low.to_bits(), high.to_bits());
        let expected = marking_order(&thinned, low, high);
        assert_eq!(drain(CannyPixels::new(&g, &d, low, high)), expected);
        assert_eq!(sorted(foreground(&hysteresis(&thinned, low, high))), sorted(expected));
    }
}

#[test]
fn lazy_producer_can_be_dropped_midway() {
    let image = two_rectangles(40, 32);
    let (g, d) = gradient_field(&image);
    let low = 100.0f32.to_bits();
    let high = 400.0f32.to_bits();
    let all = drain(CannyPixels::new(&g, &d, low, high));
    let mut pixels = CannyPixels::new(&g, &d, low, high);
    let first: Vec<(u32, u32)> = (0..5).map(|_| pixels.next().unwrap()).collect();
    assert_eq!(first[..], all[..5]);
}

#[test]
fn lazy_producer_on_a_tiny_raster_is_exhausted_at_once() {
    let g = Image::from_pixel(2, 7, 50u32);
    let d = Image::from_pixel(2, 7, Direction::Deg45);
    let mut pixels = CannyPixels::new(&g, &d, 1, 2);
    assert_eq!(pixels.next(), None);
    assert_eq!(pixels.next(), None);
}

#[test]
fn tightening_thresholds_never_adds_foreground() {
    let image = two_rectangles(40, 32);
    let (g, d) = gradient_field(&image);
    let levels: Vec<u32> = [1.0f32, 100.0, 300.0, 600.0, 900.0, 1500.0].iter().map(|v| v.to_bits()).collect();
    for &low1 in &levels {
        for &high1 in levels.iter().filter(|&&h| h >= low1) {
            let loose = foreground(&canny(&g, &d, low1, high1));
            for &low2 in levels.iter().filter(|&&l| l >= low1) {
                for &high2 in levels.iter().filter(|&&h| h >= high1 && h >= low2) {
                    let tight = foreground(&canny(&g, &d, low2, high2));
                    assert!(tight.len() <= loose.len());
                    assert!(tight.iter().all(|p| loose.contains(p)));
                }
            }
        }
    }
}

#[test]
fn raster_from_raw_checks_the_length() {
    assert!(Image::from_raw(2, 3, vec![0u8; 5]).is_none());
    assert!(Image::from_raw(2, 3, vec![0u8; 7]).is_none());
    let img = Image::from_raw(2, 3, vec![1u8, 2, 3, 4, 5, 6]).unwrap();
    assert_eq!(img.width(), 2);
    assert_eq!(img.height(), 3);
    assert_eq!(img.get_pixel(1, 0), 2);
    assert_eq!(img.get_pixel(0, 2), 5);
    assert_eq!(img.get_pixel_checked(1, 2), Some(6));
    assert_eq!(img.get_pixel_checked(2, 0), None);
    assert_eq!(img.get_pixel_checked(0, 3), None);
    assert_eq!(img.into_raw(), vec![1u8, 2, 3, 4, 5, 6]);
}

#[test]
fn raster_put_pixel_changes_one_sample() {
    let mut img = Image::from_pixel(3, 2, 0u8);
    img.put_pixel(2, 1, 9);
    assert_eq!(img.into_raw(), vec![0u8, 0, 0, 0, 0, 9]);
}

#[test]
fn angle_levels_are_the_bucket_boundaries() {
    assert_eq!(LEVEL_22_5, 22.5f32.to_bits());
    assert_eq!(LEVEL_67_5, 67.5f32.to_bits());
    assert_eq!(LEVEL_112_5, 112.5f32.to_bits());
    assert_eq!(LEVEL_157_5, 157.5f32.to_bits());
}

#[test]
fn angles_round_to_their_bucket() {
    let bucket = |degrees: f32| Direction::from_angle_level(degrees.to_bits());
    assert_eq!(bucket(0.0), Direction::Deg0);
    assert_eq!(bucket(22.4), Direction::Deg0);
    assert_eq!(bucket(22.5), Direction::Deg45);
    assert_eq!(bucket(45.0), Direction::Deg45);
    assert_eq!(bucket(67.4), Direction::Deg45);
    assert_eq!(bucket(67.5), Direction::Deg90);
    assert_eq!(bucket(90.0), Direction::Deg90);
    assert_eq!(bucket(112.4), Direction::Deg90);
    assert_eq!(bucket(112.5), Direction::Deg135);
    assert_eq!(bucket(135.0), Direction::Deg135);
    assert_eq!(bucket(157.4), Direction::Deg135);
    assert_eq!(bucket(157.5), Direction::Deg0);
    assert_eq!(bucket(180.0), Direction::Deg0);
}
