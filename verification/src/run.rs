use vstd::prelude::*;
use vstd::arithmetic::div_mod::{lemma_basic_div, lemma_div_plus_one};
use crate::calibrate::{
    fits, law_sampling_is_blind_to_colour, law_uniform_picture_fills_table, sampled, Calibration,
    POST_PROCESS,
};
use crate::draw::{described, described_all};
use crate::helper::{Color, Vector2};
use crate::picture::{seed_of, Picture, Pixel};
use crate::sim::{
    body, colored_by, constrained_all, holds_slot, keeps_stock, law_motion_is_blind_to_colour,
    law_sort_is_determined, same_bodies, lemma_stock_by_place,
    lemma_stock_chain, lemma_substep_keeps_stock, moved_all, only_positions_differ, slot_taken,
    sorted_from, spawned, white_table, Circle, Launch, Simulation,
};

verus! {

/// The arithmetic of a run, which is the caller's: where and how fast the two
/// launch points send their particles off, what collisions and gravity make of
/// the particles over a substep, and where in a picture a particle reads its
/// colour. The library asks, and checks what it can of the answers.
pub trait Dynamics {
    /// The particle that the left launch point sends off when the clock is at
    /// `clock`.
    fn launch(&self, clock: usize) -> Launch;

    /// The particle that the right launch point sends off when the clock is at
    /// `clock`.
    fn launch2(&self, clock: usize) -> Launch;

    /// How `this` and `other` stand to each other, `other` being `this`
    /// itself or a particle after it in the order.
    fn contact(&self, this: &Circle, other: &Circle) -> Contact;

    /// Where `circle`'s own velocity and gravity bring it over one substep, of
    /// which an outer step has `substeps`. The library makes the position
    /// that the particle had its last position.
    fn integrate(&self, circle: &Circle, substeps: usize) -> Vector2;

    /// The pixel, in a picture `width` wide and `height` high, at which a
    /// particle at `position` reads the colour of its slot.
    fn sample(&self, position: Vector2, width: u32, height: u32) -> Pixel;
}

/// How two particles stand to each other.
#[derive(Clone, Copy, Debug, PartialEq, Eq, Structural)]
pub enum Contact {
    /// The second is so far to the right of the first that neither it nor any
    /// particle after it can touch the first.
    Beyond,
    /// The two do not overlap, or their centres are at one point.
    Apart,
    /// The two overlap, and are pushed apart to these positions, the first
    /// particle's and the second's.
    Push(Vector2, Vector2),
}

/// Why a run stopped before its end.
#[derive(Clone, Copy, Debug, PartialEq, Eq, Structural)]
pub enum Halt {
    /// The clock would have passed the greatest number it can hold.
    ClockOverflow,
    /// The dynamics answered with a pixel outside the picture.
    SampleOutside,
}

/// `a` or `b`, whichever is less.
pub open spec fn least(a: int, b: int) -> int {
    if a <= b {
        a
    } else {
        b
    }
}

/// The number of frames of a run that begins with the clock at `clock`, ends
/// when it has reached `total` and moves it on by `stride` after each frame.
pub open spec fn frames_due(clock: int, total: int, stride: int) -> nat
    decreases
            (if clock < total {
                total - clock
            } else {
                0
            }),
{
    if clock < total && stride > 0 {
        1 + frames_due(clock + stride, total, stride)
    } else {
        0
    }
}

/// The frames of a run are as many as the strides that it takes to bring the
/// clock from where it begins to `total`, a begun stride counting as one.
pub proof fn law_frames_due_is_a_ceiling(clock: int, total: int, stride: int)
    requires
        stride > 0,
    ensures
        clock < total ==> frames_due(clock, total, stride) == (total - clock + stride - 1) / stride,
        clock >= total ==> frames_due(clock, total, stride) == 0,
    decreases
            (if clock < total {
                total - clock
            } else {
                0
            }),
{
    if clock < total {
        law_frames_due_is_a_ceiling(clock + stride, total, stride);
        lemma_div_plus_one(total - clock - 1, stride);
        if clock + stride >= total {
            lemma_basic_div(total - clock - 1, stride);
        }
    }
}

/// The clock at the end of a calibration: the seed, and `substeps` for each
/// outer step, of which one is made for every two particles and then
/// [`POST_PROCESS`] more.
pub open spec fn calibrated_clock(seed: int, max_circles: int, substeps: int) -> int {
    seed + substeps * ((max_circles + 1) / 2 + POST_PROCESS)
}

impl Simulation {
    /// Resolves the collisions. Each particle in turn is held against itself
    /// and the particles after it in the order, up to the first that
    /// `dynamics` finds beyond its reach; the two of each pair that it finds
    /// overlapping take the positions that it gives.
    pub fn collide<D: Dynamics>(&mut self, dynamics: &D)
        requires
            old(self).wf(),
        ensures
            final(self).wf(),
            exists|trail: Seq<(int, int, Seq<Circle>)>|
                collided(*dynamics, old(self).circles@, final(self).circles@, trail),
            only_positions_differ(old(self).circles@, final(self).circles@),
            final(self).clock == old(self).clock,
            final(self).same_setup(*old(self)),
    {
        let n = self.circles.len();
        let ghost mut trail: Seq<(int, int, Seq<Circle>)> = seq![(0int, 0int, self.circles@)];
        proof {
            reveal(scan_trail);
        }
        let mut i: usize = 0;
        while i < n
            invariant
                i <= n,
                self.wf(),
                n == self.circles@.len(),
                n == old(self).circles@.len(),
                scan_trail(*dynamics, old(self).circles@, trail),
                trail.last() == (i as int, i as int, self.circles@),
                only_positions_differ(old(self).circles@, self.circles@),
                self.clock == old(self).clock,
                self.same_setup(*old(self)),
            decreases n - i,
        {
            let mut j: usize = i;
            let mut scanning = true;
            while j < n && scanning
                invariant
                    i < n,
                    i <= j <= n,
                    self.wf(),
                    n == self.circles@.len(),
                    n == old(self).circles@.len(),
                    scan_trail(*dynamics, old(self).circles@, trail),
                    scanning ==> trail.last() == (i as int, j as int, self.circles@),
                    !scanning ==> trail.last() == (i + 1, i + 1, self.circles@),
                    only_positions_differ(old(self).circles@, self.circles@),
                    self.clock == old(self).clock,
                    self.same_setup(*old(self)),
                decreases
                        n - j + (if scanning {
                            1int
                        } else {
                            0int
                        }),
            {
                let ghost before = self.circles@;
                let ghost at = j as int;
                let contact = dynamics.contact(&self.circles[i], &self.circles[j]);
                match contact {
                    Contact::Beyond => {
                        scanning = false;
                    },
                    Contact::Apart => {
                        j += 1;
                    },
                    Contact::Push(this, other) => {
                        self.displace(i, j, this, other);
                        j += 1;
                    },
                }
                proof {
                    assert(answered(*dynamics, before[i as int], before[at], contact));
                    let next = after_contact(i as int, at, before, contact);
                    assert(scan_moves(*dynamics, (i as int, at, before), next));
                    lemma_trail_grows(*dynamics, old(self).circles@, trail, next);
                    trail = trail.push(next);
                }
            }
            proof {
                if scanning {
                    let next = (i + 1, i + 1, self.circles@);
                    assert(scan_moves(*dynamics, (i as int, j as int, self.circles@), next));
                    lemma_trail_grows(*dynamics, old(self).circles@, trail, next);
                    trail = trail.push(next);
                }
            }
            i += 1;
        }
        assert(collided(*dynamics, old(self).circles@, self.circles@, trail));
    }

    /// The position that `dynamics` gives each particle after its motion, in
    /// the particles' order.
    fn motions<D: Dynamics>(&self, dynamics: &D) -> (motions: Vec<Vector2>)
        ensures
            all_integrated(*dynamics, self.circles@, self.substeps, motions@),
    {
        let n = self.circles.len();
        let mut motions: Vec<Vector2> = Vec::new();
        let mut i: usize = 0;
        while i < n
            invariant
                i <= n,
                n == self.circles@.len(),
                motions@.len() == i,
                forall|k: int|
                    0 <= k < i ==> integrated_by(
                        *dynamics,
                        #[trigger] self.circles@[k],
                        self.substeps,
                        motions@[k],
                    ),
            decreases n - i,
        {
            motions.push(dynamics.integrate(&self.circles[i], self.substeps));
            i += 1;
        }
        motions
    }

    /// One outer step: the spawn gate, then `substeps` substeps, each of which
    /// clamps the particles into the area, sorts them, resolves their
    /// collisions, integrates their motion and moves the clock on by one.
    ///
    /// Nothing is done where the clock could not hold the end of the step.
    pub fn step<D: Dynamics>(&mut self, dynamics: &D) -> (res: Result<(), Halt>)
        requires
            old(self).wf(),
        ensures
            final(self).wf(),
            final(self).same_setup(*old(self)),
            res is Err <==> old(self).clock + old(self).substeps > usize::MAX,
            res matches Err(halt) ==> halt == Halt::ClockOverflow && final(self).circles == old(
                self,
            ).circles && final(self).clock == old(self).clock,
            res is Ok ==> final(self).clock == old(self).clock + old(self).substeps,
            res is Ok ==> final(self).circles@.len() == least(
                (old(self).circles@.len() + 2) as int,
                old(self).max_circles as int,
            ),
            res is Ok ==> step_of(
                *dynamics,
                old(self).colors@,
                old(self).max_circles,
                old(self).low,
                old(self).high,
                old(self).substeps,
                old(self).clock,
                old(self).circles@,
                final(self).circles@,
            ),
            res is Ok ==> keeps_stock(old(self).circles@, final(self).circles@),
            res is Ok ==> exists|left: Launch, right: Launch|
                launched_by(*dynamics, old(self).clock, left, right) && keeps_stock(
                    spawned(
                        old(self).circles@,
                        old(self).colors@,
                        old(self).max_circles as int,
                        left,
                        right,
                    ),
                    final(self).circles@,
                ),
    {
        if self.substeps > usize::MAX - self.clock {
            return Err(Halt::ClockOverflow);
        }
        let left = dynamics.launch(self.clock);
        let right = dynamics.launch2(self.clock);
        self.spawn(left, right);
        let ghost count = self.circles@.len();
        let ghost mut chain: Seq<Seq<Circle>> = seq![self.circles@];
        let ghost spawn = self.circles@;
        proof {
            lemma_stock_by_place(old(self).circles@, spawn);
            lemma_stock_by_place(spawn, spawn);
        }
        let mut i: usize = 0;
        while i < self.substeps
            invariant
                self.wf(),
                keeps_stock(old(self).circles@, spawn),
                keeps_stock(spawn, self.circles@),
                spawn == spawned(
                    old(self).circles@,
                    old(self).colors@,
                    old(self).max_circles as int,
                    left,
                    right,
                ),
                launched_by(*dynamics, old(self).clock, left, right),
                self.same_setup(*old(self)),
                i <= self.substeps,
                self.clock == old(self).clock + i,
                old(self).clock + old(self).substeps <= usize::MAX,
                self.circles@.len() == count,
                chain.len() == i + 1,
                chain[0] == spawned(
                    old(self).circles@,
                    old(self).colors@,
                    old(self).max_circles as int,
                    left,
                    right,
                ),
                chain.last() == self.circles@,
                forall|k: int|
                    0 <= k < i ==> substep_of(
                        *dynamics,
                        old(self).low,
                        old(self).high,
                        old(self).substeps,
                        #[trigger] chain[k],
                        chain[k + 1],
                    ),
            decreases self.substeps - i,
        {
            let ghost from = self.circles@;
            self.settle();
            let ghost sorted = self.circles@;
            self.collide(dynamics);
            let ghost pushed = self.circles@;
            let motions = self.motions(dynamics);
            self.integrate(&motions);
            self.tick();
            proof {
                lemma_substep_keeps_stock(from, self.low, self.high, sorted, pushed, motions@);
                lemma_stock_chain(spawn, from, self.circles@);
                let trail = choose|trail: Seq<(int, int, Seq<Circle>)>|
                    collided(*dynamics, sorted, pushed, trail);
                assert(substep_by(
                    *dynamics,
                    self.low,
                    self.high,
                    self.substeps,
                    from,
                    self.circles@,
                    sorted,
                    trail,
                    pushed,
                    motions@,
                ));
                let longer = chain.push(self.circles@);
                assert forall|k: int| 0 <= k < i + 1 implies substep_of(
                    *dynamics,
                    old(self).low,
                    old(self).high,
                    old(self).substeps,
                    #[trigger] longer[k],
                    longer[k + 1],
                ) by {
                    if k < i {
                        assert(longer[k] == chain[k]);
                        assert(longer[k + 1] == chain[k + 1]);
                    }
                }
                chain = longer;
            }
            i += 1;
        }
        proof {
            lemma_stock_chain(old(self).circles@, spawn, self.circles@);
            reveal(step_by);
            assert(step_by(
                *dynamics,
                old(self).colors@,
                old(self).max_circles,
                old(self).low,
                old(self).high,
                old(self).substeps,
                old(self).clock,
                old(self).circles@,
                self.circles@,
                left,
                right,
                chain,
            ));
        }
        Ok(())
    }

    /// `steps` outer steps, or as many as go well.
    pub fn steps<D: Dynamics>(&mut self, steps: usize, dynamics: &D) -> (res: Result<(), Halt>)
        requires
            old(self).wf(),
        ensures
            final(self).wf(),
            final(self).same_setup(*old(self)),
            old(self).circles@.len() <= final(self).circles@.len(),
            old(self).clock <= final(self).clock,
            steps == 0 ==> final(self).circles == old(self).circles,
            res is Ok ==> final(self).clock == old(self).clock + steps * old(self).substeps,
            res is Ok ==> final(self).circles@.len() == least(
                (old(self).circles@.len() + 2 * steps) as int,
                old(self).max_circles as int,
            ),
            res is Ok ==> steps_of(
                *dynamics,
                old(self).colors@,
                old(self).max_circles,
                old(self).low,
                old(self).high,
                old(self).substeps,
                old(self).clock,
                steps,
                old(self).circles@,
                final(self).circles@,
            ),
            res is Ok ==> keeps_stock(old(self).circles@, final(self).circles@),
            res is Ok <==> old(self).clock + steps * old(self).substeps <= usize::MAX,
            res matches Err(halt) ==> halt == Halt::ClockOverflow,
    {
        let ghost mut states: Seq<Seq<Circle>> = seq![self.circles@];
        proof {
            reveal(steps_by);
            lemma_stock_by_place(self.circles@, self.circles@);
        }
        let mut k: usize = 0;
        while k < steps
            invariant
                self.wf(),
                keeps_stock(old(self).circles@, self.circles@),
                self.same_setup(*old(self)),
                k <= steps,
                k == 0 ==> self.circles == old(self).circles,
                old(self).circles@.len() <= old(self).max_circles,
                self.clock == old(self).clock + k * old(self).substeps,
                self.circles@.len() == least(
                    (old(self).circles@.len() + 2 * k) as int,
                    old(self).max_circles as int,
                ),
                steps_by(
                    *dynamics,
                    old(self).colors@,
                    old(self).max_circles,
                    old(self).low,
                    old(self).high,
                    old(self).substeps,
                    old(self).clock,
                    k,
                    old(self).circles@,
                    self.circles@,
                    states,
                ),
            decreases steps - k,
        {
            let ghost per = self.substeps as int;
            assert((k + 1) * per == k * per + per) by (nonlinear_arith);
            assert((k + 1) * per <= steps * per) by (nonlinear_arith)
                requires
                    k + 1 <= steps,
                    0 <= per,
            ;
            assert(0 <= k * per) by (nonlinear_arith)
                requires
                    0 <= k,
                    0 <= per,
            ;
            let ghost before = self.circles@;
            match self.step(dynamics) {
                Ok(()) => {},
                Err(e) => {
                    return Err(e);
                },
            }
            proof {
                lemma_stock_chain(old(self).circles@, before, self.circles@);
                lemma_steps_grow(
                    *dynamics,
                    old(self).colors@,
                    old(self).max_circles,
                    old(self).low,
                    old(self).high,
                    old(self).substeps,
                    old(self).clock,
                    k,
                    old(self).circles@,
                    before,
                    states,
                    self.circles@,
                );
                states = states.push(self.circles@);
            }
            k += 1;
        }
        Ok(())
    }

    /// The calibration run for `picture`: a simulation seeded from the
    /// picture is stepped until it is full and then [`POST_PROCESS`] times
    /// more; every slot then takes the colour of the picture at the place
    /// where its particle came to rest; and the simulation is reset. Returns
    /// the simulation, the clock that the run reached and the number of
    /// particles.
    pub fn simulate_image<D: Dynamics>(
        max_circles: usize,
        low: Vector2,
        high: Vector2,
        picture: &Picture,
        dynamics: &D,
    ) -> (res: Result<(Simulation, usize, usize), Halt>)
        requires
            low.x <= high.x,
            low.y <= high.y,
            picture.wf(),
        ensures
            res matches Ok(out) ==> {
                &&& out.0.wf()
                &&& out.0.circles@ == Seq::<Circle>::empty()
                &&& out.0.clock == seed_of(picture.width, picture.height, picture.data@)
                &&& out.0.rand_seed == out.0.clock
                &&& out.0.max_circles == max_circles
                &&& out.0.substeps == 8
                &&& out.0.low == low
                &&& out.0.high == high
                &&& out.1 == calibrated_clock(out.0.rand_seed as int, max_circles as int, 8)
                &&& out.2 == max_circles
                &&& exists|rest: Seq<Circle>, samples: Seq<Pixel>|
                    calibrated_by(
                        *dynamics,
                        max_circles,
                        low,
                        high,
                        *picture,
                        out.0.colors@,
                        rest,
                        samples,
                    )
                &&& forall|s: int| 0 <= s < max_circles ==> picture.shows(#[trigger] out.0.colors@[s])
                &&& forall|c: Color|
                    picture.uniform(c) ==> forall|s: int|
                        0 <= s < max_circles ==> #[trigger] out.0.colors@[s] == c
            },
            calibrated_clock(
                seed_of(picture.width, picture.height, picture.data@),
                max_circles as int,
                8,
            ) > usize::MAX ==> res is Err,
            res == Err::<(Simulation, usize, usize), Halt>(Halt::ClockOverflow) <==> calibrated_clock(
                seed_of(picture.width, picture.height, picture.data@),
                max_circles as int,
                8,
            ) > usize::MAX,
            res == Err::<(Simulation, usize, usize), Halt>(Halt::SampleOutside) ==> exists|
                position: Vector2,
                pixel: Pixel,
            |
                sampled_outside(*dynamics, *picture, position, pixel),
            max_circles == 0 && calibrated_clock(
                seed_of(picture.width, picture.height, picture.data@),
                0,
                8,
            ) <= usize::MAX ==> res is Ok,
    {
        let seed = picture.seed();
        let outer_steps = max_circles / 2 + max_circles % 2 + POST_PROCESS;
        if outer_steps > (usize::MAX - seed) / 8 {
            return Err(Halt::ClockOverflow);
        }
        assert(outer_steps == outer_steps_of(max_circles as int));
        assert(outer_steps * 8 + seed <= usize::MAX);
        let run = Self::calibration_run(max_circles, seed, outer_steps, low, high, dynamics);
        let samples = match run.sim.samples(picture, dynamics) {
            Ok(samples) => samples,
            Err(e) => {
                return Err(e);
            },
        };
        let ghost colors = run.sim.colors@;
        let ghost cs = run.sim.circles@;
        let out = run.finish(picture, &samples);
        proof {
            assert(calibrated_by(
                *dynamics,
                max_circles,
                low,
                high,
                *picture,
                out.0.colors@,
                cs,
                samples@,
            ));
            assert forall|s: int| 0 <= s < max_circles implies picture.shows(
                #[trigger] out.0.colors@[s],
            ) by {
                assert(slot_taken(cs, s));
                let i = choose|i: int| holds_slot(cs, i, s);
                assert(cs[i].index == s);
                assert(samples@[i].x < picture.width && samples@[i].y < picture.height);
                assert(out.0.colors@[cs[i].index as int] == picture.pixel(
                    samples@[i].x,
                    samples@[i].y,
                ));
            }
            assert forall|c: Color| picture.uniform(c) implies forall|s: int|
                0 <= s < max_circles ==> #[trigger] out.0.colors@[s] == c by {
                if picture.uniform(c) {
                    law_uniform_picture_fills_table(colors, cs, *picture, samples@, c);
                }
            }
        }
        Ok(out)
    }

    /// The steps of a calibration: a simulation seeded with `seed` is stepped
    /// until it is full and then [`POST_PROCESS`] times more, `outer_steps`
    /// steps in all.
    fn calibration_run<D: Dynamics>(
        max_circles: usize,
        seed: usize,
        outer_steps: usize,
        low: Vector2,
        high: Vector2,
        dynamics: &D,
    ) -> (run: Calibration)
        requires
            low.x <= high.x,
            low.y <= high.y,
            outer_steps == outer_steps_of(max_circles as int),
            outer_steps * 8 + seed <= usize::MAX,
        ensures
            run.sim.wf(),
            run.sim.max_circles == max_circles,
            run.sim.rand_seed == seed,
            run.sim.substeps == 8,
            run.sim.low == low,
            run.sim.high == high,
            run.sim.circles@.len() == max_circles,
            run.sim.clock == calibrated_clock(seed as int, max_circles as int, 8),
            run.sim.colors@ == white_table(max_circles as nat),
            steps_of(
                *dynamics,
                white_table(max_circles as nat),
                max_circles,
                low,
                high,
                8,
                seed,
                outer_steps,
                Seq::<Circle>::empty(),
                run.sim.circles@,
            ),
    {
        let mut run = Calibration::new(Simulation::new(max_circles, seed, low, high));
        let ghost mut done: int = 0;
        let ghost mut states: Seq<Seq<Circle>> = seq![run.sim.circles@];
        assert(run.sim.circles@ =~= Seq::<Circle>::empty());
        proof {
            reveal(steps_by);
        }
        loop
            invariant
                run.sim.wf(),
                run.sim.colors@ == white_table(max_circles as nat),
                outer_steps == outer_steps_of(max_circles as int),
                outer_steps * 8 + seed <= usize::MAX,
                done <= outer_steps,
                steps_by(
                    *dynamics,
                    white_table(max_circles as nat),
                    max_circles,
                    low,
                    high,
                    8,
                    seed,
                    done as usize,
                    Seq::<Circle>::empty(),
                    run.sim.circles@,
                    states,
                ),
                run.sim.max_circles == max_circles,
                run.sim.rand_seed == seed,
                run.sim.substeps == 8,
                run.sim.low == low,
                run.sim.high == high,
                run.settle_left <= POST_PROCESS,
                0 <= done,
                run.sim.clock == seed + 8 * done,
                run.sim.circles@.len() < max_circles ==> run.settle_left == POST_PROCESS
                    && run.sim.circles@.len() == 2 * done,
                run.sim.circles@.len() == max_circles ==> done == (max_circles + 1) / 2
                    + POST_PROCESS - run.settle_left,
            ensures
                run.sim.wf(),
                run.sim.max_circles == max_circles,
                run.sim.rand_seed == seed,
                run.sim.substeps == 8,
                run.sim.low == low,
                run.sim.high == high,
                run.sim.circles@.len() == max_circles,
                run.sim.colors@ == white_table(max_circles as nat),
                done == outer_steps,
                run.sim.clock == seed + 8 * done,
                steps_by(
                    *dynamics,
                    white_table(max_circles as nat),
                    max_circles,
                    low,
                    high,
                    8,
                    seed,
                    done as usize,
                    Seq::<Circle>::empty(),
                    run.sim.circles@,
                    states,
                ),
            decreases max_circles - run.sim.circles@.len() + run.settle_left,
        {
            let go = run.plan();
            if !go {
                break ;
            }
            assert(done + 1 <= (max_circles + 1) / 2 + POST_PROCESS);
            let ghost before = run.sim.circles@;
            let stepped = run.sim.step(dynamics);
            assert(stepped is Ok);
            proof {
                lemma_steps_grow(
                    *dynamics,
                    white_table(max_circles as nat),
                    max_circles,
                    low,
                    high,
                    8,
                    seed,
                    done as usize,
                    Seq::<Circle>::empty(),
                    before,
                    states,
                    run.sim.circles@,
                );
                states = states.push(run.sim.circles@);
                done = done + 1;
            }
        }
        run
    }

    /// The place at which each particle reads its colour in `picture`, as
    /// `dynamics` gives it for the particle's position, in the particles'
    /// order; or the news that one of these places is outside the picture.
    fn samples<D: Dynamics>(&self, picture: &Picture, dynamics: &D) -> (res: Result<
        Vec<Pixel>,
        Halt,
    >)
        ensures
            res matches Ok(samples) ==> {
                &&& samples@.len() == self.circles@.len()
                &&& fits(*picture, samples@)
                &&& forall|k: int|
                    0 <= k < samples@.len() ==> sampled_by(
                        *dynamics,
                        (#[trigger] self.circles@[k]).position,
                        picture.width,
                        picture.height,
                        samples@[k],
                    )
            },
            res matches Err(halt) ==> {
                &&& halt == Halt::SampleOutside
                &&& self.circles@.len() > 0
                &&& exists|position: Vector2, pixel: Pixel|
                    sampled_outside(*dynamics, *picture, position, pixel)
            },
    {
        let n = self.circles.len();
        let (width, height) = (picture.width, picture.height);
        let mut samples: Vec<Pixel> = Vec::new();
        let mut i: usize = 0;
        while i < n
            invariant
                i <= n,
                n == self.circles@.len(),
                samples@.len() == i,
                width == picture.width,
                height == picture.height,
                fits(*picture, samples@),
                forall|k: int|
                    0 <= k < i ==> sampled_by(
                        *dynamics,
                        (#[trigger] self.circles@[k]).position,
                        picture.width,
                        picture.height,
                        samples@[k],
                    ),
            decreases n - i,
        {
            let sample = dynamics.sample(self.circles[i].position, width, height);
            if sample.x >= width || sample.y >= height {
                assert(sampled_outside(
                    *dynamics,
                    *picture,
                    self.circles@[i as int].position,
                    sample,
                ));
                return Err(Halt::SampleOutside);
            }
            samples.push(sample);
            i += 1;
        }
        Ok(samples)
    }

    /// The recorded run: while the clock has not reached `total_iterations`,
    /// the particles are described for a frame and then `step` outer steps
    /// are made. Returns the descriptions, one for each frame, in the order
    /// of the frames.
    pub fn simulate<D: Dynamics>(
        &mut self,
        total_iterations: usize,
        step: usize,
        dynamics: &D,
    ) -> (res: Result<Vec<Vec<crate::draw::Circle>>, Halt>)
        requires
            old(self).wf(),
            step > 0,
            old(self).substeps > 0,
        ensures
            final(self).wf(),
            final(self).same_setup(*old(self)),
            res matches Ok(frames) ==> {
                &&& frames@.len() == frames_due(
                    old(self).clock as int,
                    total_iterations as int,
                    step * old(self).substeps,
                )
                &&& final(self).clock >= total_iterations
                &&& final(self).clock == old(self).clock + frames@.len() * (step * old(
                    self,
                ).substeps)
                &&& frames@.len() > 0 ==> frames@[0]@ == described(*old(self))
                &&& frames@.len() == 0 ==> final(self).circles == old(self).circles
                &&& forall|k: int|
                    0 <= k < frames@.len() ==> (#[trigger] frames@[k])@.len() == least(
                        old(self).circles@.len() + 2 * (k * step),
                        old(self).max_circles as int,
                    )
                &&& exists|states: Seq<Seq<Circle>>|
                    shown_by(
                        *dynamics,
                        old(self).colors@,
                        old(self).max_circles,
                        old(self).low,
                        old(self).high,
                        old(self).substeps,
                        old(self).clock,
                        step,
                        old(self).circles@,
                        final(self).circles@,
                        frames@,
                        states,
                    )
            },
            res is Ok <==> old(self).clock + frames_due(
                old(self).clock as int,
                total_iterations as int,
                step * old(self).substeps,
            ) * (step * old(self).substeps) <= usize::MAX,
            res matches Err(halt) ==> halt == Halt::ClockOverflow,
    {
        let ghost per = self.substeps as int;
        let ghost stride = step * per;
        assert(stride >= 1) by (nonlinear_arith)
            requires
                stride == step * per,
                step >= 1,
                per >= 1,
        ;
        let mut frames: Vec<Vec<crate::draw::Circle>> = Vec::new();
        let ghost mut states: Seq<Seq<Circle>> = seq![self.circles@];
        assert(0 * step == 0) by (nonlinear_arith);
        while self.clock < total_iterations
            invariant
                self.wf(),
                self.same_setup(*old(self)),
                old(self).circles@.len() <= old(self).max_circles,
                states.len() == frames@.len() + 1,
                states[0] == old(self).circles@,
                states.last() == self.circles@,
                forall|k: int|
                    0 <= k < frames@.len() ==> (#[trigger] frames@[k])@.len() == least(
                        old(self).circles@.len() + 2 * (k * step),
                        old(self).max_circles as int,
                    ),
                self.circles@.len() == least(
                    old(self).circles@.len() + 2 * (frames@.len() * step),
                    old(self).max_circles as int,
                ),
                forall|k: int|
                    0 <= k < frames@.len() ==> frame_shown(
                        *dynamics,
                        old(self).colors@,
                        old(self).max_circles,
                        old(self).low,
                        old(self).high,
                        old(self).substeps,
                        old(self).clock,
                        step,
                        old(self).circles@.len(),
                        k,
                        frames@[k]@,
                        #[trigger] states[k],
                        states[k + 1],
                    ),
                stride == step * old(self).substeps,
                stride >= 1,
                frames@.len() + frames_due(self.clock as int, total_iterations as int, stride)
                    == frames_due(old(self).clock as int, total_iterations as int, stride),
                self.clock == old(self).clock + frames@.len() * stride,
                frames@.len() > 0 ==> frames@[0]@ == described(*old(self)),
                frames@.len() == 0 ==> *self == *old(self),
            decreases
                    (if self.clock < total_iterations {
                        total_iterations - self.clock
                    } else {
                        0
                    }),
        {
            let ghost n = frames@.len();
            let ghost rest = frames_due(self.clock as int, total_iterations as int, stride);
            let ghost all = frames_due(old(self).clock as int, total_iterations as int, stride);
            assert((n + 1) * stride == n * stride + stride) by (nonlinear_arith);
            assert(all * stride == n * stride + rest * stride) by (nonlinear_arith)
                requires
                    all == n + rest,
            ;
            assert(rest * stride >= stride) by (nonlinear_arith)
                requires
                    rest >= 1,
                    stride >= 1,
            ;
            let ghost before = frames@;
            let ghost now = self.circles@;
            assert((n + 1) * step == n * step + step) by (nonlinear_arith);
            assert(0 <= n * step) by (nonlinear_arith)
                requires
                    0 <= n,
                    0 <= step,
            ;
            assert(n * stride == n * (step * old(self).substeps));
            frames.push(self.snapshot());
            let ghost shown = self.clock;
            match self.steps(step, dynamics) {
                Ok(()) => {},
                Err(e) => {
                    return Err(e);
                },
            }
            assert(self.clock == shown + stride);
            proof {
                let longer = states.push(self.circles@);
                assert(frame_shown(
                    *dynamics,
                    old(self).colors@,
                    old(self).max_circles,
                    old(self).low,
                    old(self).high,
                    old(self).substeps,
                    old(self).clock,
                    step,
                    old(self).circles@.len(),
                    n as int,
                    frames@[n as int]@,
                    now,
                    self.circles@,
                ));
                assert forall|k: int| 0 <= k < frames@.len() implies frame_shown(
                    *dynamics,
                    old(self).colors@,
                    old(self).max_circles,
                    old(self).low,
                    old(self).high,
                    old(self).substeps,
                    old(self).clock,
                    step,
                    old(self).circles@.len(),
                    k,
                    frames@[k]@,
                    #[trigger] longer[k],
                    longer[k + 1],
                ) by {
                    if k < n {
                        assert(frames@[k] == before[k]);
                        assert(longer[k] == states[k]);
                        assert(longer[k + 1] == states[k + 1]);
                    }
                }
                states = longer;
            }
        }
        proof {
            reveal(shown_by);
            assert(shown_by(
                *dynamics,
                old(self).colors@,
                old(self).max_circles,
                old(self).low,
                old(self).high,
                old(self).substeps,
                old(self).clock,
                step,
                old(self).circles@,
                self.circles@,
                frames@,
                states,
            ));
        }
        Ok(frames)
    }
}

/// `contact` is an answer that `dynamics` may give when `this` is held
/// against `other`.
pub open spec fn answered<D: Dynamics>(
    dynamics: D,
    this: Circle,
    other: Circle,
    contact: Contact,
) -> bool {
    call_ensures(D::contact, (&dynamics, &this, &other), contact)
}

/// Where a scan for collisions goes on after `contact`, the answer for the
/// particle at `i` held against the one at `j`. Beyond: the scan of `i` is
/// over, and the next particle is held against itself. Apart: `i` is held
/// against the particle after `j`. Push: the two take their new positions,
/// and `i` is held against the particle after `j`.
pub open spec fn after_contact(i: int, j: int, cs: Seq<Circle>, contact: Contact) -> (
    int,
    int,
    Seq<Circle>,
) {
    match contact {
        Contact::Beyond => (i + 1, i + 1, cs),
        Contact::Apart => (i, j + 1, cs),
        Contact::Push(this, other) => (i, j + 1, crate::sim::displaced(cs, i, j, this, other)),
    }
}

/// One move of a scan for collisions, from the stand `s` to the stand `t`. A
/// stand is the place of the particle that is being scanned for, the place of
/// the particle that it is held against, and the particles as they are then.
/// Where no particle is left to hold against, the next particle is scanned
/// for; else `dynamics` is asked, and the scan goes on after its answer.
pub open spec fn scan_moves<D: Dynamics>(
    dynamics: D,
    s: (int, int, Seq<Circle>),
    t: (int, int, Seq<Circle>),
) -> bool {
    &&& 0 <= s.0 < s.2.len()
    &&& s.0 <= s.1
    &&& if s.1 >= s.2.len() {
        t == (s.0 + 1, s.0 + 1, s.2)
    } else {
        exists|contact: Contact|
            answered(dynamics, s.2[s.0], s.2[s.1], contact) && t == after_contact(
                s.0,
                s.1,
                s.2,
                contact,
            )
    }
}

/// `trail` holds the stands of a scan that began with the particles `from`,
/// the first particle held against itself: each stand comes from the one
/// before it by one move.
#[verifier::opaque]
pub open spec fn scan_trail<D: Dynamics>(
    dynamics: D,
    from: Seq<Circle>,
    trail: Seq<(int, int, Seq<Circle>)>,
) -> bool {
    &&& trail.len() > 0
    &&& trail[0] == (0int, 0int, from)
    &&& forall|k: int|
        0 <= k < trail.len() - 1 ==> scan_moves(dynamics, #[trigger] trail[k], trail[k + 1])
}

/// `trail` holds the stands of a whole scan for collisions, which began with
/// the particles `from` and has, with every particle scanned for, come to the
/// particles `to`.
pub open spec fn collided<D: Dynamics>(
    dynamics: D,
    from: Seq<Circle>,
    to: Seq<Circle>,
    trail: Seq<(int, int, Seq<Circle>)>,
) -> bool {
    &&& scan_trail(dynamics, from, trail)
    &&& trail.last().0 >= trail.last().2.len()
    &&& trail.last().2 == to
}

/// A trail that is one move longer is a trail still.
proof fn lemma_trail_grows<D: Dynamics>(
    dynamics: D,
    from: Seq<Circle>,
    trail: Seq<(int, int, Seq<Circle>)>,
    next: (int, int, Seq<Circle>),
)
    requires
        scan_trail(dynamics, from, trail),
        scan_moves(dynamics, trail.last(), next),
    ensures
        scan_trail(dynamics, from, trail.push(next)),
        trail.push(next).last() == next,
{
    reveal(scan_trail);
    let longer = trail.push(next);
    assert forall|k: int| 0 <= k < longer.len() - 1 implies scan_moves(
        dynamics,
        #[trigger] longer[k],
        longer[k + 1],
    ) by {
        if k < trail.len() - 1 {
            assert(longer[k] == trail[k]);
            assert(longer[k + 1] == trail[k + 1]);
        } else {
            assert(longer[k] == trail.last());
            assert(longer[k + 1] == next);
        }
    }
}

/// `left` and `right` are launches that `dynamics` may give for the two
/// launch points when the clock is at `clock`.
pub open spec fn launched_by<D: Dynamics>(
    dynamics: D,
    clock: usize,
    left: Launch,
    right: Launch,
) -> bool {
    call_ensures(D::launch, (&dynamics, clock), left) && call_ensures(
        D::launch2,
        (&dynamics, clock),
        right,
    )
}

/// `to` is a position that `dynamics` may give `circle` after its motion
/// over one substep.
pub open spec fn integrated_by<D: Dynamics>(
    dynamics: D,
    circle: Circle,
    substeps: usize,
    to: Vector2,
) -> bool {
    call_ensures(D::integrate, (&dynamics, &circle, substeps), to)
}

/// `to` holds, for each particle of `cs` in their order, a position that
/// `dynamics` may give it after its motion.
pub open spec fn all_integrated<D: Dynamics>(
    dynamics: D,
    cs: Seq<Circle>,
    substeps: usize,
    to: Seq<Vector2>,
) -> bool {
    to.len() == cs.len() && forall|i: int|
        0 <= i < cs.len() ==> integrated_by(dynamics, #[trigger] cs[i], substeps, to[i])
}

/// One substep from `from` to `to`, by way of `sorted`, `trail`, `pushed` and
/// `positions`: the particles are clamped into the area and sorted, which
/// gives `sorted`; the scan for collisions, of stands `trail`, makes `pushed`
/// of them; and each particle of `pushed` goes to its place in `positions`,
/// which `dynamics` gave, its last position being where it was.
pub open spec fn substep_by<D: Dynamics>(
    dynamics: D,
    low: Vector2,
    high: Vector2,
    substeps: usize,
    from: Seq<Circle>,
    to: Seq<Circle>,
    sorted: Seq<Circle>,
    trail: Seq<(int, int, Seq<Circle>)>,
    pushed: Seq<Circle>,
    positions: Seq<Vector2>,
) -> bool {
    &&& sorted_from(constrained_all(from, low, high), sorted)
    &&& collided(dynamics, sorted, pushed, trail)
    &&& all_integrated(dynamics, pushed, substeps, positions)
    &&& to == moved_all(pushed, positions)
}

/// `to` is what one substep may make of `from`.
pub open spec fn substep_of<D: Dynamics>(
    dynamics: D,
    low: Vector2,
    high: Vector2,
    substeps: usize,
    from: Seq<Circle>,
    to: Seq<Circle>,
) -> bool {
    exists|
        sorted: Seq<Circle>,
        trail: Seq<(int, int, Seq<Circle>)>,
        pushed: Seq<Circle>,
        positions: Seq<Vector2>,
    |
        substep_by(dynamics, low, high, substeps, from, to, sorted, trail, pushed, positions)
}

/// One outer step from `from` to `to`, by way of the launches `left` and
/// `right` and the particles `chain` after the spawn gate and after each
/// substep. The launches are answers of `dynamics` for `clock`; the spawn
/// gate admits them while there is room; then `substeps` substeps follow.
#[verifier::opaque]
pub open spec fn step_by<D: Dynamics>(
    dynamics: D,
    colors: Seq<Color>,
    max: usize,
    low: Vector2,
    high: Vector2,
    substeps: usize,
    clock: usize,
    from: Seq<Circle>,
    to: Seq<Circle>,
    left: Launch,
    right: Launch,
    chain: Seq<Seq<Circle>>,
) -> bool {
    &&& launched_by(dynamics, clock, left, right)
    &&& chain.len() == substeps + 1
    &&& chain[0] == spawned(from, colors, max as int, left, right)
    &&& forall|k: int|
        0 <= k < substeps ==> substep_of(
            dynamics,
            low,
            high,
            substeps,
            #[trigger] chain[k],
            chain[k + 1],
        )
    &&& chain.last() == to
}

/// `to` is what one outer step, begun with the clock at `clock`, may make of
/// `from`.
pub open spec fn step_of<D: Dynamics>(
    dynamics: D,
    colors: Seq<Color>,
    max: usize,
    low: Vector2,
    high: Vector2,
    substeps: usize,
    clock: usize,
    from: Seq<Circle>,
    to: Seq<Circle>,
) -> bool {
    exists|left: Launch, right: Launch, chain: Seq<Seq<Circle>>|
        step_by(dynamics, colors, max, low, high, substeps, clock, from, to, left, right, chain)
}

/// `n` outer steps from `from` to `to`, by way of the particles `states`
/// before the first step and after each: every step begins with the clock
/// where the step before left it.
#[verifier::opaque]
pub open spec fn steps_by<D: Dynamics>(
    dynamics: D,
    colors: Seq<Color>,
    max: usize,
    low: Vector2,
    high: Vector2,
    substeps: usize,
    clock: usize,
    n: usize,
    from: Seq<Circle>,
    to: Seq<Circle>,
    states: Seq<Seq<Circle>>,
) -> bool {
    &&& states.len() == n + 1
    &&& states[0] == from
    &&& forall|k: int|
        0 <= k < n ==> step_of(
            dynamics,
            colors,
            max,
            low,
            high,
            substeps,
            (clock + k * substeps) as usize,
            #[trigger] states[k],
            states[k + 1],
        )
    &&& states.last() == to
}

/// `to` is what `n` outer steps, begun with the clock at `clock`, may make of
/// `from`.
pub open spec fn steps_of<D: Dynamics>(
    dynamics: D,
    colors: Seq<Color>,
    max: usize,
    low: Vector2,
    high: Vector2,
    substeps: usize,
    clock: usize,
    n: usize,
    from: Seq<Circle>,
    to: Seq<Circle>,
) -> bool {
    exists|states: Seq<Seq<Circle>>|
        steps_by(dynamics, colors, max, low, high, substeps, clock, n, from, to, states)
}

/// A run of `n` outer steps that is followed by one more is a run of `n + 1`.
proof fn lemma_steps_grow<D: Dynamics>(
    dynamics: D,
    colors: Seq<Color>,
    max: usize,
    low: Vector2,
    high: Vector2,
    substeps: usize,
    clock: usize,
    n: usize,
    from: Seq<Circle>,
    to: Seq<Circle>,
    states: Seq<Seq<Circle>>,
    next: Seq<Circle>,
)
    requires
        n < usize::MAX,
        steps_by(dynamics, colors, max, low, high, substeps, clock, n, from, to, states),
        step_of(
            dynamics,
            colors,
            max,
            low,
            high,
            substeps,
            (clock + n * substeps) as usize,
            to,
            next,
        ),
    ensures
        steps_by(
            dynamics,
            colors,
            max,
            low,
            high,
            substeps,
            clock,
            (n + 1) as usize,
            from,
            next,
            states.push(next),
        ),
{
    reveal(steps_by);
    let longer = states.push(next);
    assert forall|k: int| 0 <= k < n + 1 implies step_of(
        dynamics,
        colors,
        max,
        low,
        high,
        substeps,
        (clock + k * substeps) as usize,
        #[trigger] longer[k],
        longer[k + 1],
    ) by {
        if k < n {
            assert(longer[k] == states[k]);
            assert(longer[k + 1] == states[k + 1]);
        } else {
            assert(longer[k] == states.last());
            assert(longer[k + 1] == next);
        }
    }
}

/// The outer steps of a calibration for `max` particles: one for every two
/// particles, and [`POST_PROCESS`] more.
pub open spec fn outer_steps_of(max: int) -> int {
    (max + 1) / 2 + POST_PROCESS
}

/// `pixel` is a place that `dynamics` may give a particle at `position` to
/// read its colour at, in a picture `width` wide and `height` high.
pub open spec fn sampled_by<D: Dynamics>(
    dynamics: D,
    position: Vector2,
    width: u32,
    height: u32,
    pixel: Pixel,
) -> bool {
    call_ensures(D::sample, (&dynamics, position, width, height), pixel)
}

/// `dynamics` may give a particle at `position` the place `pixel`, which is
/// not in `picture`.
pub open spec fn sampled_outside<D: Dynamics>(
    dynamics: D,
    picture: Picture,
    position: Vector2,
    pixel: Pixel,
) -> bool {
    sampled_by(dynamics, position, picture.width, picture.height, pixel) && (pixel.x
        >= picture.width || pixel.y >= picture.height)
}

/// `table` is the colour table of a calibration for `picture` whose particles
/// came to rest as `rest` and read their colours at `samples`: the run began
/// with no particles, every slot white and the clock at the picture's seed,
/// and made its outer steps; `dynamics` gave each particle, for the position
/// at which it rests, its place in `samples`, inside the picture; and each
/// particle gave its slot the colour there.
pub open spec fn calibrated_by<D: Dynamics>(
    dynamics: D,
    max: usize,
    low: Vector2,
    high: Vector2,
    picture: Picture,
    table: Seq<Color>,
    rest: Seq<Circle>,
    samples: Seq<Pixel>,
) -> bool {
    &&& steps_of(
        dynamics,
        white_table(max as nat),
        max,
        low,
        high,
        8,
        seed_of(picture.width, picture.height, picture.data@) as usize,
        outer_steps_of(max as int) as usize,
        Seq::<Circle>::empty(),
        rest,
    )
    &&& rest.len() == max
    &&& samples.len() == rest.len()
    &&& forall|i: int|
        0 <= i < rest.len() ==> sampled_by(
            dynamics,
            (#[trigger] rest[i]).position,
            picture.width,
            picture.height,
            samples[i],
        )
    &&& fits(picture, samples)
    &&& table == sampled(white_table(max as nat), rest, picture, samples, rest.len())
}

/// The frame at `k` of a recorded run shows `state`, from which the run goes
/// on to `next`: the frame describes the particles of `state` in their order,
/// each in the colour of its slot; they are as many as `2 * k * step`
/// launches and the capacity allow; and `next` is what `step` outer steps
/// make of `state`, begun where the clock stands after `k * step` steps.
pub open spec fn frame_shown<D: Dynamics>(
    dynamics: D,
    colors: Seq<Color>,
    max: usize,
    low: Vector2,
    high: Vector2,
    substeps: usize,
    clock: usize,
    step: usize,
    begun_with: nat,
    k: int,
    frame: Seq<crate::draw::Circle>,
    state: Seq<Circle>,
    next: Seq<Circle>,
) -> bool {
    &&& frame == described_all(state)
    &&& colored_by(state, colors)
    &&& state.len() == least(begun_with + 2 * (k * step), max as int)
    &&& steps_of(
        dynamics,
        colors,
        max,
        low,
        high,
        substeps,
        (clock + k * (step * substeps)) as usize,
        step,
        state,
        next,
    )
}

/// A recorded run from `from` to `to` with the frames `frames`, by way of the
/// particles `states` at each frame and at the end: every frame shows the
/// state at its place, and the next state comes from it by `step` outer
/// steps.
#[verifier::opaque]
pub open spec fn shown_by<D: Dynamics>(
    dynamics: D,
    colors: Seq<Color>,
    max: usize,
    low: Vector2,
    high: Vector2,
    substeps: usize,
    clock: usize,
    step: usize,
    from: Seq<Circle>,
    to: Seq<Circle>,
    frames: Seq<Vec<crate::draw::Circle>>,
    states: Seq<Seq<Circle>>,
) -> bool {
    &&& states.len() == frames.len() + 1
    &&& states[0] == from
    &&& forall|k: int|
        0 <= k < frames.len() ==> frame_shown(
            dynamics,
            colors,
            max,
            low,
            high,
            substeps,
            clock,
            step,
            from.len(),
            k,
            frames[k]@,
            #[trigger] states[k],
            states[k + 1],
        )
    &&& states.last() == to
}

/// `dynamics` answers in one way only, and without regard to colour: for one
/// clock it gives one pair of launches; for two particles, whatever their
/// colours, one contact; for a particle, whatever its colour, one position
/// after its motion; and for a position in a picture of one size, one pixel.
pub open spec fn determined<D: Dynamics>(dynamics: D) -> bool {
    &&& forall|clock: usize, l1: Launch, r1: Launch, l2: Launch, r2: Launch|
        #[trigger] launched_by(dynamics, clock, l1, r1) && #[trigger] launched_by(
            dynamics,
            clock,
            l2,
            r2,
        ) ==> l1 == l2 && r1 == r2
    &&& forall|a1: Circle, b1: Circle, c1: Contact, a2: Circle, b2: Circle, c2: Contact|
        body(a1) == body(a2) && body(b1) == body(b2) && #[trigger] answered(dynamics, a1, b1, c1)
            && #[trigger] answered(dynamics, a2, b2, c2) ==> c1 == c2
    &&& forall|a1: Circle, a2: Circle, n: usize, p1: Vector2, p2: Vector2|
        body(a1) == body(a2) && #[trigger] integrated_by(dynamics, a1, n, p1)
            && #[trigger] integrated_by(dynamics, a2, n, p2) ==> p1 == p2
    &&& forall|p: Vector2, w: u32, h: u32, x1: Pixel, x2: Pixel|
        #[trigger] sampled_by(dynamics, p, w, h, x1) && #[trigger] sampled_by(dynamics, p, w, h, x2)
            ==> x1 == x2
}

/// Two scans of the same bodies, under determined dynamics, stand alike at
/// every place of their trails.
proof fn lemma_scans_agree<D: Dynamics>(
    dynamics: D,
    from1: Seq<Circle>,
    from2: Seq<Circle>,
    t1: Seq<(int, int, Seq<Circle>)>,
    t2: Seq<(int, int, Seq<Circle>)>,
    k: int,
)
    requires
        determined(dynamics),
        same_bodies(from1, from2),
        scan_trail(dynamics, from1, t1),
        scan_trail(dynamics, from2, t2),
        0 <= k < t1.len(),
        k < t2.len(),
    ensures
        t1[k].0 == t2[k].0,
        t1[k].1 == t2[k].1,
        same_bodies(t1[k].2, t2[k].2),
    decreases k,
{
    reveal(scan_trail);
    if k > 0 {
        lemma_scans_agree(dynamics, from1, from2, t1, t2, k - 1);
        let s1 = t1[k - 1];
        let s2 = t2[k - 1];
        assert(scan_moves(dynamics, s1, t1[k - 1 + 1]));
        assert(scan_moves(dynamics, s2, t2[k - 1 + 1]));
        if s1.1 < s1.2.len() {
            let c1 = choose|c: Contact|
                answered(dynamics, s1.2[s1.0], s1.2[s1.1], c) && t1[k] == after_contact(
                    s1.0,
                    s1.1,
                    s1.2,
                    c,
                );
            let c2 = choose|c: Contact|
                answered(dynamics, s2.2[s2.0], s2.2[s2.1], c) && t2[k] == after_contact(
                    s2.0,
                    s2.1,
                    s2.2,
                    c,
                );
            assert(body(s1.2[s1.0]) == body(s2.2[s2.0]));
            assert(body(s1.2[s1.1]) == body(s2.2[s2.1]));
            assert(c1 == c2);
            match c1 {
                Contact::Push(this, other) => {
                    law_motion_is_blind_to_colour(
                        s1.2,
                        s2.2,
                        Seq::empty(),
                        Seq::empty(),
                        0,
                        Launch { position: this, last_position: this, radius: 0 },
                        Launch { position: this, last_position: this, radius: 0 },
                        this,
                        this,
                        s1.0,
                        s1.1,
                        this,
                        other,
                        Seq::empty(),
                    );
                },
                _ => {},
            }
        }
    }
}

/// Two whole scans of the same bodies, under determined dynamics, end with
/// the same bodies.
proof fn lemma_collisions_agree<D: Dynamics>(
    dynamics: D,
    from1: Seq<Circle>,
    to1: Seq<Circle>,
    t1: Seq<(int, int, Seq<Circle>)>,
    from2: Seq<Circle>,
    to2: Seq<Circle>,
    t2: Seq<(int, int, Seq<Circle>)>,
)
    requires
        determined(dynamics),
        same_bodies(from1, from2),
        collided(dynamics, from1, to1, t1),
        collided(dynamics, from2, to2, t2),
    ensures
        same_bodies(to1, to2),
{
    reveal(scan_trail);
    let k = if t1.len() <= t2.len() {
        t1.len() - 1
    } else {
        t2.len() - 1
    };
    lemma_scans_agree(dynamics, from1, from2, t1, t2, k);
    if t1.len() < t2.len() {
        assert(scan_moves(dynamics, t2[k], t2[k + 1]));
    }
    if t2.len() < t1.len() {
        assert(scan_moves(dynamics, t1[k], t1[k + 1]));
    }
}

/// Two substeps of the same bodies, under determined dynamics, end with the
/// same bodies.
proof fn lemma_substeps_agree<D: Dynamics>(
    dynamics: D,
    low: Vector2,
    high: Vector2,
    substeps: usize,
    from1: Seq<Circle>,
    to1: Seq<Circle>,
    from2: Seq<Circle>,
    to2: Seq<Circle>,
)
    requires
        determined(dynamics),
        same_bodies(from1, from2),
        substep_of(dynamics, low, high, substeps, from1, to1),
        substep_of(dynamics, low, high, substeps, from2, to2),
    ensures
        same_bodies(to1, to2),
{
    let (s1, tr1, p1, m1) = choose|
        s: Seq<Circle>,
        tr: Seq<(int, int, Seq<Circle>)>,
        p: Seq<Circle>,
        m: Seq<Vector2>,
    |
        substep_by(dynamics, low, high, substeps, from1, to1, s, tr, p, m);
    let (s2, tr2, p2, m2) = choose|
        s: Seq<Circle>,
        tr: Seq<(int, int, Seq<Circle>)>,
        p: Seq<Circle>,
        m: Seq<Vector2>,
    |
        substep_by(dynamics, low, high, substeps, from2, to2, s, tr, p, m);
    let none = Launch { position: low, last_position: low, radius: 0 };
    law_motion_is_blind_to_colour(
        from1,
        from2,
        Seq::empty(),
        Seq::empty(),
        0,
        none,
        none,
        low,
        high,
        0,
        0,
        low,
        low,
        Seq::empty(),
    );
    law_sort_is_determined(
        constrained_all(from1, low, high),
        s1,
        constrained_all(from2, low, high),
        s2,
    );
    lemma_collisions_agree(dynamics, s1, p1, tr1, s2, p2, tr2);
    assert(m1 =~= m2) by {
        assert forall|i: int| 0 <= i < m1.len() implies m1[i] == m2[i] by {
            assert(body(p1[i]) == body(p2[i]));
            assert(integrated_by(dynamics, p1[i], substeps, m1[i]));
            assert(integrated_by(dynamics, p2[i], substeps, m2[i]));
        }
    }
    law_motion_is_blind_to_colour(
        p1,
        p2,
        Seq::empty(),
        Seq::empty(),
        0,
        none,
        none,
        low,
        high,
        0,
        0,
        low,
        low,
        m1,
    );
}

/// Two chains of substeps that begin with the same bodies, under determined
/// dynamics, hold the same bodies at every place.
proof fn lemma_chains_agree<D: Dynamics>(
    dynamics: D,
    low: Vector2,
    high: Vector2,
    substeps: usize,
    ch1: Seq<Seq<Circle>>,
    ch2: Seq<Seq<Circle>>,
    k: int,
)
    requires
        determined(dynamics),
        ch1.len() == substeps + 1,
        ch2.len() == substeps + 1,
        same_bodies(ch1[0], ch2[0]),
        forall|i: int|
            0 <= i < substeps ==> substep_of(
                dynamics,
                low,
                high,
                substeps,
                #[trigger] ch1[i],
                ch1[i + 1],
            ),
        forall|i: int|
            0 <= i < substeps ==> substep_of(
                dynamics,
                low,
                high,
                substeps,
                #[trigger] ch2[i],
                ch2[i + 1],
            ),
        0 <= k <= substeps,
    ensures
        same_bodies(ch1[k], ch2[k]),
    decreases k,
{
    if k > 0 {
        lemma_chains_agree(dynamics, low, high, substeps, ch1, ch2, k - 1);
        let a = ch1[k - 1];
        let b = ch2[k - 1];
        assert(substep_of(dynamics, low, high, substeps, a, ch1[k - 1 + 1]));
        assert(substep_of(dynamics, low, high, substeps, b, ch2[k - 1 + 1]));
        lemma_substeps_agree(dynamics, low, high, substeps, a, ch1[k], b, ch2[k]);
    }
}

/// Two outer steps of the same bodies at the same clock, under determined
/// dynamics, end with the same bodies, whatever the two colour tables hold.
pub proof fn law_step_is_determined<D: Dynamics>(
    dynamics: D,
    colors1: Seq<Color>,
    colors2: Seq<Color>,
    max: usize,
    low: Vector2,
    high: Vector2,
    substeps: usize,
    clock: usize,
    from1: Seq<Circle>,
    to1: Seq<Circle>,
    from2: Seq<Circle>,
    to2: Seq<Circle>,
)
    requires
        determined(dynamics),
        same_bodies(from1, from2),
        step_of(dynamics, colors1, max, low, high, substeps, clock, from1, to1),
        step_of(dynamics, colors2, max, low, high, substeps, clock, from2, to2),
    ensures
        same_bodies(to1, to2),
{
    reveal(step_by);
    let (l1, r1, ch1) = choose|l: Launch, r: Launch, ch: Seq<Seq<Circle>>|
        step_by(dynamics, colors1, max, low, high, substeps, clock, from1, to1, l, r, ch);
    let (l2, r2, ch2) = choose|l: Launch, r: Launch, ch: Seq<Seq<Circle>>|
        step_by(dynamics, colors2, max, low, high, substeps, clock, from2, to2, l, r, ch);
    assert(l1 == l2 && r1 == r2);
    law_motion_is_blind_to_colour(
        from1,
        from2,
        colors1,
        colors2,
        max as int,
        l1,
        r1,
        low,
        high,
        0,
        0,
        low,
        low,
        Seq::empty(),
    );
    lemma_chains_agree(dynamics, low, high, substeps, ch1, ch2, substeps as int);
}

/// Two runs of outer steps that hold the same bodies up to `k` steps.
proof fn lemma_runs_agree<D: Dynamics>(
    dynamics: D,
    colors1: Seq<Color>,
    colors2: Seq<Color>,
    max: usize,
    low: Vector2,
    high: Vector2,
    substeps: usize,
    clock: usize,
    n: usize,
    st1: Seq<Seq<Circle>>,
    st2: Seq<Seq<Circle>>,
    k: int,
)
    requires
        determined(dynamics),
        same_bodies(st1[0], st2[0]),
        steps_by(dynamics, colors1, max, low, high, substeps, clock, n, st1[0], st1.last(), st1),
        steps_by(dynamics, colors2, max, low, high, substeps, clock, n, st2[0], st2.last(), st2),
        0 <= k <= n,
    ensures
        same_bodies(st1[k], st2[k]),
    decreases k,
{
    reveal(steps_by);
    if k > 0 {
        lemma_runs_agree(dynamics, colors1, colors2, max, low, high, substeps, clock, n, st1, st2, k - 1);
        let a = st1[k - 1];
        let b = st2[k - 1];
        let at = (clock + (k - 1) * substeps) as usize;
        assert(step_of(dynamics, colors1, max, low, high, substeps, at, a, st1[k - 1 + 1]));
        assert(step_of(dynamics, colors2, max, low, high, substeps, at, b, st2[k - 1 + 1]));
        law_step_is_determined(
            dynamics,
            colors1,
            colors2,
            max,
            low,
            high,
            substeps,
            at,
            a,
            st1[k],
            b,
            st2[k],
        );
    }
}

/// A run that is made again repeats itself. Two runs of `n` outer steps that
/// begin with the same bodies and the same clock end, under determined
/// dynamics, with the same bodies: position, last position, radius and slot
/// of every particle, whatever the two colour tables hold. So the recorded
/// run, begun from the seed after the reset, goes as the calibration went.
pub proof fn law_run_repeats<D: Dynamics>(
    dynamics: D,
    colors1: Seq<Color>,
    colors2: Seq<Color>,
    max: usize,
    low: Vector2,
    high: Vector2,
    substeps: usize,
    clock: usize,
    n: usize,
    from1: Seq<Circle>,
    to1: Seq<Circle>,
    from2: Seq<Circle>,
    to2: Seq<Circle>,
)
    requires
        determined(dynamics),
        same_bodies(from1, from2),
        steps_of(dynamics, colors1, max, low, high, substeps, clock, n, from1, to1),
        steps_of(dynamics, colors2, max, low, high, substeps, clock, n, from2, to2),
    ensures
        same_bodies(to1, to2),
{
    reveal(steps_by);
    let st1 = choose|st: Seq<Seq<Circle>>|
        steps_by(dynamics, colors1, max, low, high, substeps, clock, n, from1, to1, st);
    let st2 = choose|st: Seq<Seq<Circle>>|
        steps_by(dynamics, colors2, max, low, high, substeps, clock, n, from2, to2, st);
    lemma_runs_agree(
        dynamics,
        colors1,
        colors2,
        max,
        low,
        high,
        substeps,
        clock,
        n,
        st1,
        st2,
        n as int,
    );
}

/// Two calibrations for one picture, under determined dynamics, give the
/// same colour table.
pub proof fn law_calibration_is_determined<D: Dynamics>(
    dynamics: D,
    max: usize,
    low: Vector2,
    high: Vector2,
    picture: Picture,
    table1: Seq<Color>,
    rest1: Seq<Circle>,
    samples1: Seq<Pixel>,
    table2: Seq<Color>,
    rest2: Seq<Circle>,
    samples2: Seq<Pixel>,
)
    requires
        determined(dynamics),
        calibrated_by(dynamics, max, low, high, picture, table1, rest1, samples1),
        calibrated_by(dynamics, max, low, high, picture, table2, rest2, samples2),
    ensures
        table1 == table2,
{
    let white = white_table(max as nat);
    let seed = seed_of(picture.width, picture.height, picture.data@) as usize;
    let n = outer_steps_of(max as int) as usize;
    let none = Seq::<Circle>::empty();
    law_run_repeats(dynamics, white, white, max, low, high, 8, seed, n, none, rest1, none, rest2);
    assert(samples1 =~= samples2) by {
        assert forall|i: int| 0 <= i < samples1.len() implies samples1[i] == samples2[i] by {
            assert(body(rest1[i]) == body(rest2[i]));
            assert(sampled_by(
                dynamics,
                rest1[i].position,
                picture.width,
                picture.height,
                samples1[i],
            ));
            assert(sampled_by(
                dynamics,
                rest2[i].position,
                picture.width,
                picture.height,
                samples2[i],
            ));
        }
    }
    law_sampling_is_blind_to_colour(white, rest1, rest2, picture, samples1, rest1.len());
}

} // verus!
