use lpframe::pixels::{dhash, hamming, resize_box};

fn gradient(w: u32, h: u32) -> Vec<u8> {
    (0..w * h)
        .flat_map(|i| {
            let (x, y) = (i % w, i / w);
            [
                (x * 255 / w) as u8,
                (y * 255 / h) as u8,
                ((x + y) * 127 / (w + h)) as u8,
                255,
            ]
        })
        .collect()
}

/// Concentric bands, unrelated to `gradient` in both layout and palette.
fn rings(w: u32, h: u32) -> Vec<u8> {
    (0..w * h)
        .flat_map(|i| {
            let (x, y) = (i % w, i / w);
            let dx = x as i32 - w as i32 / 2;
            let dy = y as i32 - h as i32 / 2;
            let d = ((dx * dx + dy * dy) as f32).sqrt() as u32;
            let v = if (d / 5) % 2 == 0 { 20u8 } else { 235 };
            [v, 255 - v, v / 2, 255]
        })
        .collect()
}

#[test]
fn the_same_image_at_two_sizes_hashes_almost_identically() {
    // The property the perceptual gate depends on.
    let a = dhash(&gradient(500, 500), 500, 500);
    let b = dhash(&gradient(3000, 3000), 3000, 3000);
    assert!(hamming(a, b) <= 2, "distance {}", hamming(a, b));
}

#[test]
fn unrelated_images_are_far_apart() {
    let a = dhash(&gradient(256, 256), 256, 256);
    let b = dhash(&rings(256, 256), 256, 256);
    assert!(
        hamming(a, b) > 12,
        "distance {} is inside the threshold",
        hamming(a, b)
    );
}

#[test]
fn hashing_is_deterministic() {
    let px = gradient(128, 128);
    let first = dhash(&px, 128, 128);
    for _ in 0..5 {
        assert_eq!(dhash(&px, 128, 128), first);
    }
}

#[test]
fn a_flat_image_hashes_to_zero_and_does_not_panic() {
    let flat: Vec<u8> = (0..64 * 64).flat_map(|_| [77u8, 77, 77, 255]).collect();
    assert_eq!(dhash(&flat, 64, 64), 0);
    assert_eq!(dhash(&[], 0, 0), 0);
    assert_eq!(dhash(&[1, 2, 3], 500, 500), 0);
}

#[test]
fn hamming_counts_differing_bits() {
    assert_eq!(hamming(0, 0), 0);
    assert_eq!(hamming(0, u64::MAX), 64);
    assert_eq!(hamming(0b1011, 0b0011), 1);
}

#[test]
fn a_solid_image_survives_downscaling_unchanged() {
    let px: Vec<u8> = (0..64 * 64).flat_map(|_| [180u8, 40, 90, 255]).collect();
    let out = resize_box(&px, 64, 64, 32, 32);
    assert_eq!(out.len(), 32 * 32 * 4);
    for chunk in out.chunks(4) {
        assert_eq!(chunk[0..3], [180, 40, 90], "solid colour drifted");
    }
}

#[test]
fn averaging_happens_in_linear_light() {
    // Half black, half white. The sRGB midpoint of 0 and 255 is 128; the
    // perceptually correct answer — the average of the *light* — is 188.
    let px: Vec<u8> = (0..2)
        .flat_map(|i| if i == 0 { [0, 0, 0, 255] } else { [255; 4] })
        .collect();
    let out = resize_box(&px, 2, 1, 1, 1);
    assert!(
        (out[0] as i32 - 188).abs() <= 1,
        "expected a linear-light average, got {}",
        out[0]
    );
}

#[test]
fn resizing_is_deterministic_and_size_invariant() {
    // Comparing covers means a 500px AirPlay image against a 3000px candidate,
    // so the same picture at two sizes must reduce to nearly the same
    // 32x32 — this is the property the whole perceptual gate rests on.
    let big = plain_gradient(600, 600);
    let small = plain_gradient(150, 150);
    let a = resize_box(&big, 600, 600, 32, 32);
    let b = resize_box(&small, 150, 150, 32, 32);
    assert_eq!(a, resize_box(&big, 600, 600, 32, 32), "not deterministic");

    let worst = a
        .chunks(4)
        .zip(b.chunks(4))
        .flat_map(|(p, q)| (0..3).map(move |i| (p[i] as i32 - q[i] as i32).abs()))
        .max()
        .unwrap();
    assert!(worst <= 4, "same image at two sizes diverged by {worst}");
}

#[test]
fn degenerate_input_yields_nothing_rather_than_panicking() {
    assert!(resize_box(&[], 0, 0, 32, 32).is_empty());
    assert!(resize_box(&[1, 2, 3], 100, 100, 32, 32).is_empty());
    assert!(resize_box(&[1, 2, 3, 4], 1, 1, 0, 0).is_empty());
    // Whatever the sizes claim.
    assert!(resize_box(&[], 1 << 31, 1 << 31, 1, 1).is_empty());
    assert!(resize_box(&[], 1 << 31, 1 << 31, u32::MAX, u32::MAX).is_empty());
    // Upscaling is not what this is for, but it must still be safe.
    assert_eq!(resize_box(&[1, 2, 3, 4], 1, 1, 4, 4).len(), 64);
}

fn plain_gradient(w: u32, h: u32) -> Vec<u8> {
    (0..w * h)
        .flat_map(|i| {
            let (x, y) = (i % w, i / w);
            [
                (x * 255 / w.max(1)) as u8,
                (y * 255 / h.max(1)) as u8,
                128,
                255,
            ]
        })
        .collect()
}
