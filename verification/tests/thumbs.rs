use rldeck::thumbs::{cache_dir_from, cached_path, decode_rgba, looks_decodable, ready, settle_download, shrink, Retry};

fn jpeg(w: u32, h: u32) -> Vec<u8> {
    let buffer = image::ImageBuffer::from_fn(w, h, |x, y| image::Rgb([(x % 255) as u8, (y % 255) as u8, 128]));
    let mut out = std::io::Cursor::new(Vec::new());
    image::DynamicImage::ImageRgb8(buffer).write_to(&mut out, image::ImageFormat::Jpeg).unwrap();
    out.into_inner()
}

#[test]
fn truncated_cache_entries_are_rejected() {
    assert!(!looks_decodable(b""));
    assert!(!looks_decodable(b"\xFF\xD8\xFF"), "a 3-byte jpeg header is not an image");
    assert!(!looks_decodable(b"<!DOCTYPE html><html>"));
}

#[test]
fn real_headers_are_accepted() {
    let jpeg = [0xFFu8, 0xD8, 0xFF, 0xE0, 0, 0, 0, 0, 0, 0, 0, 0];
    let png = [0x89u8, b'P', b'N', b'G', 13, 10, 26, 10, 0, 0, 0, 0];
    let mut webp = Vec::from(*b"RIFF____WEBP");
    webp.extend_from_slice(&[0u8; 8]);

    assert!(looks_decodable(&jpeg));
    assert!(looks_decodable(&png));
    assert!(looks_decodable(&webp));
}

#[test]
fn oversized_screenshots_are_shrunk_and_small_ones_left_alone() {
    let big = jpeg(1920, 1080);
    let small = shrink(&big).expect("a 1920 wide image should shrink");
    assert!(looks_decodable(&small));
    assert!(small.len() < big.len(), "shrunk {} vs original {}", small.len(), big.len());

    let already_small = jpeg(400, 225);
    assert!(shrink(&already_small).is_none(), "no point re-encoding it");
}

#[test]
fn decoding_yields_pixels_at_the_capped_size() {
    let (w, h, pixels) = decode_rgba(&jpeg(1920, 1080)).expect("decode");
    assert_eq!(w, 640, "oversized art is capped before it reaches memory");
    assert_eq!(pixels.len(), (w * h * 4) as usize);
}

#[test]
fn cache_names_are_stable_and_distinct() {
    let a = cached_path("/tmp", "https://example.com/one.jpg");
    let b = cached_path("/tmp", "https://example.com/two.jpg");

    assert_ne!(a, b);
    assert_eq!(a, cached_path("/tmp", "https://example.com/one.jpg"));
    assert!(!a.contains(char::is_whitespace));
    assert_eq!(a.len(), "/tmp/".len() + 32);
}

#[test]
fn a_download_that_is_no_picture_is_never_retried() {
    let failed = settle_download("u".to_string(), Ok(b"<!DOCTYPE html><html>".to_vec())).unwrap_err();
    assert_eq!(failed.retry, Retry::Pointless);
    assert_eq!(failed.reason, "not an image");

    let offline = settle_download("u".to_string(), Err("offline".to_string())).unwrap_err();
    assert_eq!(offline.retry, Retry::Worth);
    assert_eq!(offline.reason, "offline");

    let kept = settle_download("u".to_string(), Ok(jpeg(100, 50))).unwrap();
    assert!(looks_decodable(&kept));
}

#[test]
fn bytes_that_do_not_decode_are_hopeless() {
    let mut fake = vec![0xFFu8, 0xD8, 0xFF];
    fake.extend_from_slice(&[0u8; 20]);
    let failed = ready("u".to_string(), &fake).unwrap_err();
    assert_eq!(failed.reason, "could not decode");
    assert_eq!(failed.retry, Retry::Pointless);

    let fine = ready("v".to_string(), &jpeg(20, 10)).unwrap();
    assert_eq!((fine.width, fine.height, fine.pixels.len()), (20, 10, 800));
}

#[test]
fn pictures_are_kept_in_the_cache_folder() {
    assert_eq!(cache_dir_from(Some("/home/me/.cache".to_string()), "/tmp".to_string()), "/home/me/.cache/RLDeck/thumbs");
    assert_eq!(cache_dir_from(None, "/tmp".to_string()), "/tmp/RLDeck/thumbs");
}

#[test]
fn bytes_the_decoder_cannot_read_give_no_pixels_and_no_smaller_copy() {
    assert!(decode_rgba(b"<!DOCTYPE html><html></html>").is_none());
    assert!(shrink(b"<!DOCTYPE html><html></html>").is_none());
    assert!(decode_rgba(&jpeg(32, 16)).is_some());
}
