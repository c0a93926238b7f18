use circlefall::calibrate::{Calibration, POST_PROCESS};
use circlefall::helper::{Color, Vector2};
use circlefall::picture::{Picture, Pixel};
use circlefall::sim::{Launch, Simulation};

fn at(x: u32, y: u32) -> Launch {
    Launch { position: Vector2::new(x, y), last_position: Vector2::new(x, y), radius: 8 }
}

fn outer_step(sim: &mut Simulation) {
    let n = sim.clock as u32;
    sim.spawn(at(90 - n % 50, 20), at(11 + n % 50, 20));
    for _ in 0..sim.substeps {
        sim.settle();
        let motions: Vec<Vector2> = sim
            .circles
            .iter()
            .map(|c| Vector2::new(c.position.x, c.position.y + 1))
            .collect();
        sim.integrate(&motions);
        sim.tick();
    }
}

fn run(max: usize, seed: usize) -> (Calibration, usize) {
    let sim = Simulation::new(max, seed, Vector2::new(10, 20), Vector2::new(100, 200));
    let mut run = Calibration::new(sim);
    let mut steps = 0;
    while run.plan() {
        outer_step(&mut run.sim);
        steps += 1;
    }
    (run, steps)
}

#[test]
fn calibration_fills_then_settles() {
    assert_eq!(POST_PROCESS, 120);
    let (run, steps) = run(7, 100);
    assert_eq!(steps, 4 + 120);
    assert_eq!(run.sim.circles(), 7);
    assert_eq!(run.settle_left, 0);
    assert_eq!(run.sim.clock, 100 + 8 * 124);
}

#[test]
fn calibration_without_room_only_settles() {
    let (run, steps) = run(0, 3);
    assert_eq!(steps, 120);
    assert_eq!(run.sim.circles(), 0);
    assert_eq!(run.sim.clock, 3 + 8 * 120);
}

#[test]
fn plan_counts_only_steps_of_a_full_simulation() {
    let sim = Simulation::new(1, 0, Vector2::new(0, 0), Vector2::new(9, 9));
    let mut run = Calibration::new(sim);
    assert!(run.plan());
    assert_eq!(run.settle_left, 120);
    run.sim.add_circle(at(1, 1));
    assert!(run.plan());
    assert_eq!(run.settle_left, 119);
    run.settle_left = 1;
    assert!(run.plan());
    assert_eq!(run.settle_left, 0);
    assert!(!run.plan());
    assert_eq!(run.settle_left, 0);
}

#[test]
fn finish_gives_each_slot_the_colour_at_its_particle() {
    let mut sim = Simulation::new(4, 55, Vector2::new(0, 0), Vector2::new(100, 100));
    for x in [70u32, 10, 40] {
        sim.add_circle(at(x, 50));
    }
    sim.settle();
    let slots: Vec<usize> = sim.circles.iter().map(|c| c.index).collect();
    assert_eq!(slots, vec![1, 2, 0]);
    sim.clock = 999;
    let data: Vec<u8> = (0u8..12).collect();
    let picture = Picture::new(2, 2, data).unwrap();
    let samples = vec![Pixel { x: 0, y: 0 }, Pixel { x: 1, y: 0 }, Pixel { x: 1, y: 1 }];
    let (sim, total, count) = Calibration::new(sim).finish(&picture, &samples);
    assert_eq!(total, 999);
    assert_eq!(count, 3);
    assert_eq!(sim.circles(), 0);
    assert_eq!(sim.clock, 55);
    assert_eq!(
        sim.colors,
        vec![Color(9, 10, 11), Color(0, 1, 2), Color(3, 4, 5), Color(255, 255, 255)]
    );
}

#[test]
fn a_picture_of_one_colour_colours_every_slot() {
    for max in [1usize, 2, 9, 30] {
        let (run, _) = run(max, 17);
        assert_eq!(run.sim.circles(), max);
        let picture = Picture::new(2, 2, [12u8, 34, 56].repeat(4)).unwrap();
        let samples: Vec<Pixel> = run
            .sim
            .circles
            .iter()
            .map(|c| Pixel { x: c.position.x % 2, y: c.position.y % 2 })
            .collect();
        let (sim, total, count) = run.finish(&picture, &samples);
        assert_eq!(count, max);
        assert!(total > 17);
        assert_eq!(sim.colors, vec![Color(12, 34, 56); max]);
        assert_eq!(sim.clock, 17);
    }
}

#[test]
fn two_calibrations_of_one_picture_agree() {
    let picture = Picture::new(2, 2, (0u8..12).collect()).unwrap();
    let mut outs = Vec::new();
    for _ in 0..2 {
        let (run, _) = run(12, picture.seed());
        let samples: Vec<Pixel> = run
            .sim
            .circles
            .iter()
            .map(|c| Pixel { x: c.position.x % 2, y: c.index as u32 % 2 })
            .collect();
        let (sim, total, count) = run.finish(&picture, &samples);
        outs.push((sim.colors, total, count));
    }
    assert_eq!(outs[0], outs[1]);
}
