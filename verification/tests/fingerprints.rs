use image::{DynamicImage, GrayImage, RgbImage};
use image_dedup::coordinator::{run, Summary};
use image_dedup::fingerprint::{perceptual_hash, HASH_BYTES};
use image_dedup::record::{HashRecord, Timestamp};
use image_hasher::HasherConfig;

fn ramp(width: u32, height: u32) -> Vec<u8> {
    let mut luma = Vec::new();
    for _y in 0..height {
        for x in 0..width {
            luma.push((x * 255 / (width - 1)) as u8);
        }
    }
    luma
}

fn tiles(width: u32, height: u32) -> Vec<u8> {
    let mut luma = Vec::new();
    for y in 0..height {
        for x in 0..width {
            luma.push(if (x / 4 + y / 4) % 2 == 0 { 20 } else { 230 });
        }
    }
    luma
}

#[test]
fn hash_has_eight_bytes() {
    assert_eq!(HASH_BYTES, 8);
    let hash = perceptual_hash(32, 16, ramp(32, 16)).unwrap();
    assert_eq!(hash.len(), 8);
    let hash = perceptual_hash(3, 5, vec![7; 15]).unwrap();
    assert_eq!(hash.len(), 8);
}

#[test]
fn hash_needs_at_least_one_pixel() {
    assert!(perceptual_hash(0, 0, Vec::new()).is_none());
    assert!(perceptual_hash(0, 9, Vec::new()).is_none());
    assert!(perceptual_hash(9, 0, Vec::new()).is_none());
    assert_eq!(perceptual_hash(1, 1, vec![200]).unwrap().len(), 8);
}

#[test]
fn hash_needs_one_byte_per_pixel() {
    assert!(perceptual_hash(4, 4, vec![0; 15]).is_none());
    assert!(perceptual_hash(4, 4, vec![0; 17]).is_none());
    assert!(perceptual_hash(0, 0, vec![0; 1]).is_none());
    assert!(perceptual_hash(u32::MAX, u32::MAX, vec![0; 16]).is_none());
    assert!(perceptual_hash(4, 4, vec![0; 16]).is_some());
}

#[test]
fn hash_of_a_flat_image_has_no_bit_set() {
    assert_eq!(perceptual_hash(20, 20, vec![128; 400]).unwrap(), vec![0u8; 8]);
}

#[test]
fn hash_of_a_rising_ramp_has_every_bit_set() {
    assert_eq!(perceptual_hash(64, 8, ramp(64, 8)).unwrap(), vec![0xffu8; 8]);
}

#[test]
fn hash_is_the_same_for_the_same_pixels() {
    let a = perceptual_hash(24, 24, tiles(24, 24)).unwrap();
    let b = perceptual_hash(24, 24, tiles(24, 24)).unwrap();
    assert_eq!(a, b);
}

#[test]
fn hash_is_what_the_hasher_gives_for_the_gray_image() {
    let pixels = tiles(40, 24);
    let gray = GrayImage::from_raw(40, 24, pixels.clone()).unwrap();
    let hasher = HasherConfig::new().to_hasher();
    let direct = hasher.hash_image(&DynamicImage::ImageLuma8(gray)).as_bytes().to_vec();
    assert_eq!(perceptual_hash(40, 24, pixels).unwrap(), direct);
}

#[test]
fn hash_is_what_the_hasher_gives_for_a_colour_image() {
    let mut rgb = RgbImage::new(30, 20);
    for (x, y, p) in rgb.enumerate_pixels_mut() {
        p.0 = [(x * 8) as u8, (y * 12) as u8, ((x + y) * 5) as u8];
    }
    let image = DynamicImage::ImageRgb8(rgb);
    let direct = HasherConfig::new().to_hasher().hash_image(&image).as_bytes().to_vec();
    let gray = image.to_luma8();
    let (width, height) = gray.dimensions();
    assert_eq!(perceptual_hash(width, height, gray.into_raw()).unwrap(), direct);
}

#[test]
fn hashed_images_run_through_the_engine() {
    let flat = perceptual_hash(16, 16, vec![50; 256]).unwrap();
    let flat_again = perceptual_hash(32, 32, vec![90; 1024]).unwrap();
    let rising = perceptual_hash(64, 8, ramp(64, 8)).unwrap();
    let batch = vec![
        HashRecord::new("flat".to_string(), flat, 10, Timestamp { nanos: 1 }),
        HashRecord::new("flat-again".to_string(), flat_again, 20, Timestamp { nanos: 2 }),
        HashRecord::new("rising".to_string(), rising, 30, Timestamp { nanos: 3 }),
    ];
    let report = run(&batch, true);
    assert_eq!(report.summary, Summary { duplicate: 1, similar: 0, unique: 2 });
    assert_eq!(report.store.len(), 2);
    assert_eq!(report.store.entry(0).path, "flat-again");
    assert_eq!(report.store.entry(1).path, "rising");
}
