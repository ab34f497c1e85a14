use lpframe::enrich::gate::{fingerprint, fingerprint_of, size_gate, HAMMING_MAX};

/// A synthetic cover: coloured quadrants with a diagonal band, rendered at
/// whatever size is asked for.
fn cover(size: u32) -> Vec<u8> {
    let mut px = Vec::with_capacity((size * size * 4) as usize);
    for y in 0..size {
        for x in 0..size {
            let (fx, fy) = (x as f32 / size as f32, y as f32 / size as f32);
            let base: [u8; 3] = if (fx + fy) > 0.9 && (fx + fy) < 1.1 {
                [240, 230, 60]
            } else if fx < 0.5 && fy < 0.5 {
                [200, 40, 40]
            } else if fx >= 0.5 && fy < 0.5 {
                [30, 60, 180]
            } else if fx < 0.5 {
                [20, 20, 20]
            } else {
                [230, 230, 220]
            };
            px.extend([base[0], base[1], base[2], 255]);
        }
    }
    px
}

fn png(px: &[u8], size: u32) -> Vec<u8> {
    let img = image::RgbaImage::from_raw(size, size, px.to_vec()).unwrap();
    let mut out = std::io::Cursor::new(Vec::new());
    image::DynamicImage::ImageRgba8(img)
        .write_to(&mut out, image::ImageFormat::Png)
        .unwrap();
    out.into_inner()
}

#[test]
fn the_size_gate_rejects_a_marginal_upgrade() {
    // The example from the design: 600 over 500 is not worth a swap.
    assert!(!size_gate(500, 600));
    assert!(!size_gate(500, 749));
    assert!(size_gate(500, 750));
    assert!(size_gate(500, 3000));
    // A candidate that is smaller is never an upgrade.
    assert!(!size_gate(1200, 600));
}

#[test]
fn undecodable_bytes_are_an_error_rather_than_a_panic() {
    assert!(fingerprint(b"").is_err());
    assert!(fingerprint(b"not an image at all").is_err());
    // A truncated PNG: valid signature, no pixels.
    let mut truncated = png(&cover(32), 32);
    truncated.truncate(40);
    assert!(fingerprint(&truncated).is_err());
}

#[test]
fn an_absurdly_large_declared_size_is_refused_before_allocating() {
    // A PNG header claiming 60000x60000 must not become 14 GB of RGBA.
    let mut header = vec![0x89, b'P', b'N', b'G', 0x0d, 0x0a, 0x1a, 0x0a];
    header.extend_from_slice(&13u32.to_be_bytes());
    header.extend_from_slice(b"IHDR");
    header.extend_from_slice(&60000u32.to_be_bytes());
    header.extend_from_slice(&60000u32.to_be_bytes());
    header.extend_from_slice(&[8, 6, 0, 0, 0]);
    header.extend_from_slice(&[0u8; 4]);
    assert!(fingerprint(&header).is_err());
}

#[test]
fn an_encoded_picture_has_the_fingerprint_of_its_pixels() {
    let px = cover(300);
    let decoded = fingerprint(&png(&px, 300)).unwrap();
    let direct = fingerprint_of(300, 300, &px).unwrap();
    assert_eq!(decoded.min_side(), 300);
    assert_eq!(decoded.dhash, direct.dhash);
    assert_eq!(decoded.small, direct.small);
}

#[test]
fn the_same_cover_at_two_sizes_hashes_alike() {
    let small = fingerprint_of(500, 500, &cover(500)).unwrap();
    let large = fingerprint_of(1500, 1500, &cover(1500)).unwrap();
    assert!(lpframe::pixels::hamming(small.dhash, large.dhash) <= HAMMING_MAX);
}
