use circlefall::helper::Color;
use circlefall::picture::{reduce, Picture, SEED_RANGE};
use std::hash::{Hash, Hasher};

fn bytes(n: usize) -> Vec<u8> {
    (0..n).map(|k| (k * 37 % 251) as u8).collect()
}

fn expected_seed(width: u32, height: u32, data: Vec<u8>) -> usize {
    let img: image::ImageBuffer<image::Rgb<u8>, Vec<u8>> =
        image::ImageBuffer::from_raw(width, height, data).unwrap();
    let mut s = std::collections::hash_map::DefaultHasher::new();
    img.hash(&mut s);
    (s.finish() % 1204) as usize
}

#[test]
fn picture_needs_three_bytes_for_each_pixel() {
    assert!(Picture::new(2, 2, bytes(12)).is_some());
    assert!(Picture::new(2, 2, bytes(11)).is_none());
    assert!(Picture::new(2, 2, bytes(13)).is_none());
    assert!(Picture::new(0, 5, Vec::new()).is_some());
    assert!(Picture::new(u32::MAX, u32::MAX, bytes(3)).is_none());
}

#[test]
fn get_pixel_reads_row_by_row() {
    let data: Vec<u8> = (0u8..18).collect();
    let p = Picture::new(3, 2, data).unwrap();
    assert_eq!(p.get_pixel(0, 0), Color(0, 1, 2));
    assert_eq!(p.get_pixel(2, 0), Color(6, 7, 8));
    assert_eq!(p.get_pixel(0, 1), Color(9, 10, 11));
    assert_eq!(p.get_pixel(2, 1), Color(15, 16, 17));
}

#[test]
fn get_pixel_agrees_with_the_image_buffer() {
    let data = bytes(5 * 4 * 3);
    let img: image::RgbImage = image::ImageBuffer::from_raw(5, 4, data.clone()).unwrap();
    let p = Picture::new(5, 4, data).unwrap();
    for y in 0..4 {
        for x in 0..5 {
            let q = img.get_pixel(x, y);
            assert_eq!(p.get_pixel(x, y), Color(q[0], q[1], q[2]));
        }
    }
}

#[test]
fn reduce_is_the_remainder() {
    assert_eq!(SEED_RANGE, 1204);
    assert_eq!(reduce(0), 0);
    assert_eq!(reduce(1203), 1203);
    assert_eq!(reduce(1204), 0);
    assert_eq!(reduce(1205), 1);
    assert_eq!(reduce(1_000_000), 680);
    assert_eq!(reduce(u64::MAX), (u64::MAX % 1204) as usize);
}

#[test]
fn seed_is_the_reduced_digest_of_the_image() {
    for (w, h) in [(2u32, 2u32), (3, 5), (1, 1), (0, 0), (16, 9)] {
        let data = bytes((w * h * 3) as usize);
        let p = Picture::new(w, h, data.clone()).unwrap();
        let seed = p.seed();
        assert!(seed < 1204);
        assert_eq!(seed, expected_seed(w, h, data));
    }
}

#[test]
fn seed_depends_on_the_bytes_and_the_shape() {
    let seeds: Vec<usize> = (0..40u8)
        .map(|k| Picture::new(2, 2, vec![k; 12]).unwrap().seed())
        .collect();
    assert!(seeds.iter().any(|s| *s != seeds[0]));
    let wide = Picture::new(4, 1, vec![1; 12]).unwrap().seed();
    let tall = Picture::new(1, 4, vec![1; 12]).unwrap().seed();
    assert_eq!(wide, expected_seed(4, 1, vec![1; 12]));
    assert_eq!(tall, expected_seed(1, 4, vec![1; 12]));
}

#[test]
fn the_same_picture_gives_the_same_seed() {
    let a = Picture::new(4, 4, bytes(48)).unwrap();
    let b = Picture::new(4, 4, bytes(48)).unwrap();
    assert_eq!(a.seed(), b.seed());
    assert_eq!(a.seed(), a.seed());
}
