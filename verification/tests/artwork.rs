use lpframe::artwork::{is_stale, join_path, ArtStore, ImageKind};
use lpframe::digest::hex_digest;

#[test]
fn sniffs_png_and_jpeg() {
    let png = [0x89, b'P', b'N', b'G', 0x0d, 0x0a, 0x1a, 0x0a];
    assert_eq!(ImageKind::sniff(&png), ImageKind::Png);
    assert_eq!(ImageKind::sniff(&[0xFF, 0xD8, 0xFF, 0xE0]), ImageKind::Jpeg);
    assert_eq!(ImageKind::sniff(b"not an image"), ImageKind::Unknown);
    assert_eq!(ImageKind::sniff(&[]), ImageKind::Unknown);
}

#[test]
fn reads_png_dimensions() {
    let mut b = vec![0x89, b'P', b'N', b'G', 0x0d, 0x0a, 0x1a, 0x0a];
    b.extend_from_slice(&13u32.to_be_bytes());
    b.extend_from_slice(b"IHDR");
    b.extend_from_slice(&500u32.to_be_bytes());
    b.extend_from_slice(&480u32.to_be_bytes());
    assert_eq!(ImageKind::Png.dimensions(&b), Some((500, 480)));
}

#[test]
fn reads_jpeg_dimensions_past_a_leading_segment() {
    let mut b = vec![0xFF, 0xD8];
    // A JFIF APP0 segment first, so we exercise the skip loop.
    b.extend_from_slice(&[0xFF, 0xE0, 0x00, 0x10]);
    b.extend_from_slice(&[0u8; 14]);
    // SOF0: len, precision, height, width
    b.extend_from_slice(&[0xFF, 0xC0, 0x00, 0x11, 0x08]);
    b.extend_from_slice(&600u16.to_be_bytes());
    b.extend_from_slice(&640u16.to_be_bytes());
    b.extend_from_slice(&[0u8; 8]);
    assert_eq!(ImageKind::Jpeg.dimensions(&b), Some((640, 600)));
}

#[test]
fn truncated_headers_return_none_rather_than_panicking() {
    for n in 0..24 {
        let b = vec![0x89u8; n];
        let _ = ImageKind::Png.dimensions(&b);
        let _ = ImageKind::Jpeg.dimensions(&b);
    }
    assert_eq!(ImageKind::Jpeg.dimensions(&[0xFF, 0xD8]), None);
}

#[test]
fn a_zero_side_is_no_size() {
    let mut b = vec![0x89, b'P', b'N', b'G', 0x0d, 0x0a, 0x1a, 0x0a];
    b.extend_from_slice(&13u32.to_be_bytes());
    b.extend_from_slice(b"IHDR");
    b.extend_from_slice(&0u32.to_be_bytes());
    b.extend_from_slice(&480u32.to_be_bytes());
    assert_eq!(ImageKind::Png.dimensions(&b), None);
    assert_eq!(ImageKind::Unknown.dimensions(&b), None);
}

#[test]
fn a_segment_that_runs_past_the_end_gives_no_size() {
    let mut b = vec![0xFF, 0xD8, 0xFF, 0xE0, 0xFF, 0xFF];
    b.extend_from_slice(&[0u8; 20]);
    assert_eq!(ImageKind::Jpeg.dimensions(&b), None);
    // A length that cannot even hold itself.
    let mut b = vec![0xFF, 0xD8, 0xFF, 0xE0, 0x00, 0x01];
    b.extend_from_slice(&[0u8; 20]);
    assert_eq!(ImageKind::Jpeg.dimensions(&b), None);
}

#[test]
fn endings_and_media_types_belong_together() {
    assert_eq!(ImageKind::Jpeg.extension(), "jpg");
    assert_eq!(ImageKind::Jpeg.mime(), "image/jpeg");
    assert_eq!(ImageKind::Png.extension(), "png");
    assert_eq!(ImageKind::Png.mime(), "image/png");
    assert_eq!(ImageKind::Unknown.extension(), "jpg");
    assert_eq!(ImageKind::Unknown.mime(), "image/jpeg");
}

#[test]
fn paths_are_joined_with_one_separator() {
    assert_eq!(join_path("/run/lpframe/art", "a.jpg"), "/run/lpframe/art/a.jpg");
    assert_eq!(join_path("/run/lpframe/art/", "a.jpg"), "/run/lpframe/art/a.jpg");
    assert_eq!(join_path("", "a.jpg"), "a.jpg");
}

#[test]
fn pictures_are_numbered_and_named_after_their_digest() {
    let mut store = ArtStore::new("/run/lpframe/art", 2);
    let staged = store.stage(b"");
    // The digest of nothing is a published value.
    assert_eq!(
        staged.stored.sha256,
        "e3b0c44298fc1c149afbf4c8996fb92427ae41e4649b934ca495991b7852b855"
    );
    assert_eq!(staged.stored.path, "/run/lpframe/art/0001-e3b0c442.jpg");
    assert_eq!(staged.temporary, "/run/lpframe/art/.0001-e3b0c442.jpg.tmp");
    assert_eq!(staged.stored.bytes, 0);
    assert_eq!(staged.stored.dimensions, None);

    let png = [0x89, b'P', b'N', b'G', 0x0d, 0x0a, 0x1a, 0x0a];
    let second = store.stage(&png);
    let sha = hex_digest(&png);
    assert_eq!(second.stored.path, format!("/run/lpframe/art/0002-{}.png", &sha[..8]));
}

#[test]
fn only_the_latest_few_files_are_kept() {
    let mut store = ArtStore::new("/art", 2);
    let mut gone = Vec::new();
    let mut paths = Vec::new();
    for i in 0..5u8 {
        let s = store.stage(&[i; 64]);
        assert_eq!(s.stored.bytes, 64);
        gone.extend(store.store(&s.stored.path));
        paths.push(s.stored.path);
    }
    assert_eq!(gone, paths[..3]);
    assert_eq!(store.clear(), paths[3..]);
    assert!(store.clear().is_empty());
}

#[test]
fn the_window_holds_at_least_two_files() {
    let mut store = ArtStore::new("/art", 0);
    assert!(store.store("/art/a.jpg").is_empty());
    assert!(store.store("/art/b.jpg").is_empty());
    assert_eq!(store.store("/art/c.jpg"), vec!["/art/a.jpg".to_string()]);
}

#[test]
fn a_start_clears_images_and_nothing_else() {
    assert!(is_stale(Some("jpg")));
    assert!(is_stale(Some("png")));
    assert!(!is_stale(Some("toml")));
    assert!(!is_stale(None));
}
