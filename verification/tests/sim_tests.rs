use circlefall::helper::{clamp, Color, Vector2};
use circlefall::sim::{Circle, Launch, Simulation};

fn at(x: u32, y: u32) -> Launch {
    Launch { position: Vector2::new(x, y), last_position: Vector2::new(x, y), radius: 8 }
}

fn area(max: usize, seed: usize) -> Simulation {
    Simulation::new(max, seed, Vector2::new(10, 20), Vector2::new(100, 200))
}

/// The ordinal of a coordinate: the bits of the number, turned so that they
/// order as the numbers do.
fn ordinal(v: f32) -> u32 {
    let bits = v.to_bits();
    if bits & 0x8000_0000 != 0 {
        !bits
    } else {
        bits | 0x8000_0000
    }
}

#[test]
fn new_simulation_is_empty_and_white() {
    let sim = area(5, 77);
    assert_eq!(sim.circles(), 0);
    assert_eq!(sim.max_circles, 5);
    assert_eq!(sim.colors, vec![Color(255, 255, 255); 5]);
    assert_eq!(sim.clock, 77);
    assert_eq!(sim.rand_seed, 77);
    assert_eq!(sim.substeps, 8);
    assert_eq!(sim.low, Vector2 { x: 10, y: 20 });
    assert_eq!(sim.high, Vector2 { x: 100, y: 200 });
}

#[test]
fn add_circle_takes_the_next_slot_and_its_colour() {
    let mut sim = area(3, 0);
    sim.colors[0] = Color(1, 2, 3);
    sim.colors[1] = Color(4, 5, 6);
    sim.add_circle(Launch {
        position: Vector2::new(30, 40),
        last_position: Vector2::new(29, 38),
        radius: 7,
    });
    sim.add_circle(at(50, 60));
    assert_eq!(
        sim.circles[0],
        Circle {
            position: Vector2::new(30, 40),
            last_position: Vector2::new(29, 38),
            radius: 7,
            color: Color(1, 2, 3),
            index: 0,
        }
    );
    assert_eq!(sim.circles[1].index, 1);
    assert_eq!(sim.circles[1].color, Color(4, 5, 6));
    assert_eq!(sim.circles(), 2);
}

#[test]
fn spawn_stops_at_capacity() {
    let mut sim = area(3, 0);
    assert_eq!(sim.spawn(at(11, 20), at(90, 20)), 2);
    assert_eq!(sim.circles(), 2);
    assert_eq!(sim.spawn(at(12, 20), at(91, 20)), 1);
    assert_eq!(sim.circles(), 3);
    assert_eq!(sim.circles[2].position, Vector2::new(12, 20));
    assert_eq!(sim.circles[2].index, 2);
    assert_eq!(sim.spawn(at(13, 20), at(92, 20)), 0);
    assert_eq!(sim.circles(), 3);
}

#[test]
fn spawn_into_no_room_does_nothing() {
    let mut sim = area(0, 9);
    assert_eq!(sim.spawn(at(11, 20), at(90, 20)), 0);
    assert_eq!(sim.circles(), 0);
    assert_eq!(sim.clock, 9);
}

#[test]
fn clamp_brings_a_value_into_range() {
    assert_eq!(clamp(5, 10, 20), 10);
    assert_eq!(clamp(10, 10, 20), 10);
    assert_eq!(clamp(15, 10, 20), 15);
    assert_eq!(clamp(20, 10, 20), 20);
    assert_eq!(clamp(21, 10, 20), 20);
    assert_eq!(clamp(7, 3, 3), 3);
}

#[test]
fn constrain_rect_clamps_both_axes() {
    let mut sim = area(4, 0);
    sim.add_circle(at(0, 0));
    sim.add_circle(at(500, 500));
    sim.add_circle(at(50, 19));
    sim.add_circle(at(101, 100));
    sim.constrain_rect();
    let got: Vec<(u32, u32)> = sim.circles.iter().map(|c| (c.position.x, c.position.y)).collect();
    assert_eq!(got, vec![(10, 20), (100, 200), (50, 20), (100, 100)]);
    for (i, c) in sim.circles.iter().enumerate() {
        assert_eq!(c.index, i);
        assert_eq!(c.radius, 8);
    }
    assert_eq!(sim.circles[1].last_position, Vector2::new(500, 500));
}

#[test]
fn every_particle_is_inside_after_the_constraint() {
    let mut sim = area(40, 0);
    for k in 0..40u32 {
        sim.add_circle(at(k.wrapping_mul(2_654_435_761) % 300, k.wrapping_mul(40_503) % 400));
    }
    sim.constrain_rect();
    for c in sim.circles.iter() {
        assert!(10 <= c.position.x && c.position.x <= 100);
        assert!(20 <= c.position.y && c.position.y <= 200);
    }
}

#[test]
fn sort_orders_by_x() {
    let mut sim = area(5, 0);
    for x in [50u32, 20, 90, 10, 70] {
        sim.add_circle(at(x, 30));
    }
    sim.sort();
    let xs: Vec<u32> = sim.circles.iter().map(|c| c.position.x).collect();
    assert_eq!(xs, vec![10, 20, 50, 70, 90]);
    let slots: Vec<usize> = sim.circles.iter().map(|c| c.index).collect();
    assert_eq!(slots, vec![3, 1, 0, 4, 2]);
}

#[test]
fn sort_keeps_the_order_of_equal_x() {
    let mut sim = area(6, 0);
    for (x, y) in [(30u32, 1u32), (20, 2), (30, 3), (20, 4), (10, 5), (30, 6)] {
        sim.add_circle(at(x, y));
    }
    sim.sort();
    let got: Vec<(u32, u32)> = sim.circles.iter().map(|c| (c.position.x, c.position.y)).collect();
    assert_eq!(got, vec![(10, 5), (20, 2), (20, 4), (30, 1), (30, 3), (30, 6)]);
}

#[test]
fn sort_of_one_or_none_changes_nothing() {
    let mut sim = area(2, 0);
    sim.sort();
    assert_eq!(sim.circles(), 0);
    sim.add_circle(at(40, 40));
    sim.sort();
    assert_eq!(sim.circles(), 1);
    assert_eq!(sim.circles[0].position, Vector2::new(40, 40));
}

#[test]
fn settle_clamps_then_sorts() {
    let mut sim = area(4, 0);
    sim.add_circle(at(400, 30));
    sim.add_circle(at(60, 300));
    sim.add_circle(at(0, 100));
    sim.add_circle(at(100, 0));
    sim.settle();
    let got: Vec<(u32, u32, usize)> =
        sim.circles.iter().map(|c| (c.position.x, c.position.y, c.index)).collect();
    assert_eq!(got, vec![(10, 100, 2), (60, 200, 1), (100, 30, 0), (100, 20, 3)]);
    for pair in sim.circles.windows(2) {
        assert!(pair[0].position.x <= pair[1].position.x);
    }
}

#[test]
fn ordinals_order_as_the_coordinates_do() {
    let values = [-3.5f32, -0.25, 0.0, 0.5, 8.0, 8.000001, 503.75, 1.0e9];
    for pair in values.windows(2) {
        assert!(ordinal(pair[0]) < ordinal(pair[1]));
    }
    let mut sim = Simulation::new(
        4,
        0,
        Vector2::new(ordinal(8.0), ordinal(8.0)),
        Vector2::new(ordinal(504.0), ordinal(504.0)),
    );
    for x in [300.5f32, 2.0, 9.25, 600.0] {
        sim.add_circle(at(ordinal(x), ordinal(100.0)));
    }
    sim.settle();
    let xs: Vec<u32> = sim.circles.iter().map(|c| c.position.x).collect();
    assert_eq!(xs, vec![ordinal(8.0), ordinal(9.25), ordinal(300.5), ordinal(504.0)]);
}

#[test]
fn integrate_moves_every_particle_and_tick_the_clock() {
    let mut sim = area(2, 41);
    sim.colors[1] = Color(9, 9, 9);
    sim.add_circle(at(30, 30));
    sim.add_circle(at(60, 60));
    let motions = vec![
        Vector2::new(31, 33),
        Vector2::new(59, 64),
    ];
    sim.integrate(&motions);
    assert_eq!(sim.clock, 41);
    sim.tick();
    assert_eq!(sim.clock, 42);
    assert_eq!(sim.circles[0].position, Vector2::new(31, 33));
    assert_eq!(sim.circles[0].last_position, Vector2::new(30, 30));
    assert_eq!(sim.circles[1].position, Vector2::new(59, 64));
    assert_eq!(sim.circles[1].index, 1);
    assert_eq!(sim.circles[1].color, Color(9, 9, 9));
    assert_eq!(sim.circles[1].radius, 8);
}

#[test]
fn reset_clears_the_particles_and_rewinds_the_clock() {
    let mut sim = area(3, 500);
    sim.colors[2] = Color(7, 8, 9);
    sim.spawn(at(30, 30), at(60, 60));
    sim.settle();
    let motions: Vec<Vector2> = sim
        .circles
        .iter()
        .map(|c| c.position)
        .collect();
    sim.integrate(&motions);
    sim.tick();
    assert_eq!(sim.clock, 501);
    sim.reset();
    assert_eq!(sim.circles(), 0);
    assert_eq!(sim.clock, 500);
    assert_eq!(sim.colors, vec![Color(255, 255, 255), Color(255, 255, 255), Color(7, 8, 9)]);
    assert_eq!(sim.max_circles, 3);
}

#[test]
fn a_run_after_reset_repeats_the_first_run() {
    let mut sim = area(5, 12);
    let mut first = Vec::new();
    for round in 0..2 {
        let mut seen = Vec::new();
        for step in 0..4u32 {
            sim.spawn(at(90 - step, 20), at(11 + step, 20));
            sim.settle();
            let motions: Vec<Vector2> = sim
                .circles
                .iter()
                .map(|c| Vector2::new(c.position.x, c.position.y + 3))
                .collect();
            sim.integrate(&motions);
            sim.tick();
            let now: Vec<(u32, u32, usize)> =
                sim.circles.iter().map(|c| (c.position.x, c.position.y, c.index)).collect();
            seen.push((sim.clock, now));
        }
        if round == 0 {
            first = seen;
            for slot in sim.colors.iter_mut() {
                *slot = Color(1, 1, 1);
            }
            sim.reset();
        } else {
            assert_eq!(first, seen);
        }
    }
}

#[test]
fn displace_moves_two_particles_and_nothing_else() {
    let mut sim = area(3, 4);
    sim.colors[1] = Color(5, 6, 7);
    for x in [30u32, 40, 50] {
        sim.add_circle(at(x, 60));
    }
    sim.displace(0, 2, Vector2::new(28, 61), Vector2::new(52, 59));
    let got: Vec<(u32, u32)> = sim.circles.iter().map(|c| (c.position.x, c.position.y)).collect();
    assert_eq!(got, vec![(28, 61), (40, 60), (52, 59)]);
    assert_eq!(sim.circles[0].last_position, Vector2::new(30, 60));
    assert_eq!(sim.circles[2].index, 2);
    assert_eq!(sim.circles[1].color, Color(5, 6, 7));
    assert_eq!(sim.clock, 4);
    sim.displace(1, 1, Vector2::new(1, 1), Vector2::new(2, 2));
    assert_eq!(sim.circles[1].position, Vector2::new(2, 2));
}

#[test]
fn integrate_makes_the_old_position_the_last_position() {
    let mut sim = area(2, 0);
    sim.add_circle(Launch {
        position: Vector2::new(30, 40),
        last_position: Vector2::new(25, 35),
        radius: 8,
    });
    sim.add_circle(Launch {
        position: Vector2::new(60, 70),
        last_position: Vector2::new(61, 69),
        radius: 9,
    });
    sim.integrate(&vec![Vector2::new(35, 46), Vector2::new(59, 72)]);
    assert_eq!(sim.circles[0].position, Vector2::new(35, 46));
    assert_eq!(sim.circles[0].last_position, Vector2::new(30, 40));
    assert_eq!(sim.circles[1].position, Vector2::new(59, 72));
    assert_eq!(sim.circles[1].last_position, Vector2::new(60, 70));
    assert_eq!((sim.circles[0].radius, sim.circles[1].radius), (8, 9));
    assert_eq!((sim.circles[0].index, sim.circles[1].index), (0, 1));
    assert_eq!(sim.clock, 0);
}
