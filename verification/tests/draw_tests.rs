use circlefall::draw::{disc_covers, frame_len, render, shade, Capacity, Circle, Disc, SCALE};
use circlefall::helper::{Color, Vector2};
use circlefall::sim::{Launch, Simulation};

fn pixel(frame: &[u8], width: u32, x: u32, y: u32) -> [u8; 4] {
    let at = 4 * (y * width + x) as usize;
    [frame[at], frame[at + 1], frame[at + 2], frame[at + 3]]
}

fn disc(x: i32, y: i32, radius: u32, color: Color) -> Disc {
    Disc { x, y, radius, color }
}

#[test]
fn an_empty_frame_is_opaque_black() {
    for (w, h) in [(1u32, 1u32), (7, 3), (64, 48), (0, 5), (5, 0)] {
        let frame = render(&Vec::new(), w, h);
        assert_eq!(frame.len(), (w * h * 4) as usize);
        for px in frame.chunks(4) {
            assert_eq!(px, &[0u8, 0, 0, 255][..]);
        }
    }
}

#[test]
fn a_frame_has_four_bytes_for_each_pixel() {
    let discs = vec![disc(300, 300, 500, Color(1, 2, 3))];
    assert_eq!(render(&discs, 13, 11).len(), 13 * 11 * 4);
}

#[test]
fn a_disc_covers_the_pixels_whose_centre_is_inside() {
    assert_eq!(SCALE, 256);
    let d = disc(640, 640, 256, Color(200, 100, 50));
    assert!(disc_covers(&d, 2, 2));
    assert!(disc_covers(&d, 1, 2));
    assert!(disc_covers(&d, 3, 2));
    assert!(disc_covers(&d, 2, 1));
    assert!(disc_covers(&d, 2, 3));
    assert!(!disc_covers(&d, 1, 1));
    assert!(!disc_covers(&d, 3, 3));
    assert!(!disc_covers(&d, 0, 2));
    assert!(!disc_covers(&d, 4, 2));
    let frame = render(&vec![d], 5, 5);
    let mut lit = Vec::new();
    for y in 0..5 {
        for x in 0..5 {
            let p = pixel(&frame, 5, x, y);
            if p == [200, 100, 50, 255] {
                lit.push((x, y));
            } else {
                assert_eq!(p, [0, 0, 0, 255]);
            }
        }
    }
    assert_eq!(lit, vec![(2, 1), (1, 2), (2, 2), (3, 2), (2, 3)]);
}

#[test]
fn a_disc_of_no_radius_covers_only_its_own_centre() {
    assert!(disc_covers(&disc(128, 128, 0, Color(1, 1, 1)), 0, 0));
    assert!(!disc_covers(&disc(129, 128, 0, Color(1, 1, 1)), 0, 0));
}

#[test]
fn far_discs_and_far_pixels_do_not_overflow() {
    let d = disc(i32::MIN, i32::MAX, u32::MAX, Color(1, 1, 1));
    assert!(disc_covers(&d, 0, 0));
    assert!(!disc_covers(&d, u32::MAX, 0));
    let e = disc(i32::MAX, i32::MIN, 1, Color(1, 1, 1));
    assert!(!disc_covers(&e, u32::MAX, u32::MAX));
}

#[test]
fn later_discs_are_drawn_over_earlier_ones() {
    let red = disc(256, 256, 400, Color(255, 0, 0));
    let blue = disc(512, 256, 200, Color(0, 0, 255));
    let discs = vec![red, blue];
    assert_eq!(shade(&discs, 1, 0), Color(0, 0, 255));
    assert_eq!(shade(&discs, 0, 0), Color(255, 0, 0));
    assert_eq!(shade(&discs, 5, 5), Color(0, 0, 0));
    let swapped = vec![blue, red];
    assert_eq!(shade(&swapped, 1, 0), Color(255, 0, 0));
    let frame = render(&discs, 4, 2);
    assert_eq!(pixel(&frame, 4, 1, 0), [0, 0, 255, 255]);
    assert_eq!(pixel(&frame, 4, 2, 1), [0, 0, 255, 255]);
    assert_eq!(pixel(&frame, 4, 0, 1), [255, 0, 0, 255]);
    assert_eq!(pixel(&frame, 4, 3, 1), [0, 0, 0, 255]);
}

#[test]
fn a_disc_outside_the_frame_leaves_it_black() {
    let frame = render(&vec![disc(-5000, -5000, 100, Color(9, 9, 9))], 4, 4);
    assert!(frame.chunks(4).all(|p| p == &[0u8, 0, 0, 255][..]));
}

#[test]
fn capacity_only_grows() {
    let mut cap = Capacity { circles: 0 };
    assert!(cap.allocate(1000));
    assert_eq!(cap.circles, 1000);
    for count in [0usize, 1, 999, 1000] {
        assert!(!cap.allocate(count));
        assert_eq!(cap.circles, 1000);
    }
    assert!(cap.allocate(1001));
    assert_eq!(cap.circles, 1001);
    assert!(!cap.allocate(1000));
    assert_eq!(cap.circles, 1001);
}

#[test]
fn frames_within_capacity_make_no_new_buffer() {
    let mut cap = Capacity { circles: 16 };
    let max = 300;
    let mut made = 0;
    if cap.allocate(max) {
        made += 1;
    }
    assert_eq!(made, 1);
    for count in (0..=max).rev().chain(0..=max) {
        if cap.allocate(count) {
            made += 1;
        }
    }
    assert_eq!(made, 1);
    assert_eq!(cap.circles, 300);
}

#[test]
fn snapshot_describes_each_particle_in_order() {
    let mut sim = Simulation::new(3, 0, Vector2::new(0, 0), Vector2::new(100, 100));
    sim.colors[0] = Color(1, 2, 3);
    sim.colors[1] = Color(4, 5, 6);
    sim.add_circle(Launch {
        position: Vector2::new(80, 10),
        last_position: Vector2::new(80, 9),
        radius: 5,
    });
    sim.add_circle(Launch {
        position: Vector2::new(20, 30),
        last_position: Vector2::new(21, 29),
        radius: 6,
    });
    sim.sort();
    assert_eq!(
        sim.snapshot(),
        vec![
            Circle { position: Vector2::new(20, 30), radius: 6, color: Color(4, 5, 6) },
            Circle { position: Vector2::new(80, 10), radius: 5, color: Color(1, 2, 3) },
        ]
    );
}

#[test]
fn frame_len_is_four_bytes_for_each_pixel() {
    assert_eq!(frame_len(512, 512), Some(1_048_576));
    assert_eq!(frame_len(0, 9), Some(0));
    assert_eq!(frame_len(3, 5), Some(60));
    assert_eq!(frame_len(u32::MAX, 1), Some(4 * (u32::MAX as usize)));
    assert_eq!(frame_len(u32::MAX, u32::MAX), None);
    assert_eq!(frame_len(1 << 31, 1 << 31), None);
    assert_eq!(frame_len(1 << 31, 1 << 30), Some(1 << 63));
}
