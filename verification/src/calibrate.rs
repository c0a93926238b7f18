use vstd::prelude::*;
use crate::helper::Color;
use crate::picture::{Picture, Pixel};
use crate::sim::{
    body, holds_slot, same_bodies, slot_taken, slots_cover, slots_distinct, Circle, Simulation,
};

verus! {

/// The number of outer steps that follow the last spawn of a calibration, for
/// the particles to come to rest.
pub const POST_PROCESS: usize = 120;

/// Every sample lies inside the picture.
pub open spec fn fits(picture: Picture, samples: Seq<Pixel>) -> bool {
    forall|i: int|
        0 <= i < samples.len() ==> (#[trigger] samples[i]).x < picture.width && samples[i].y
            < picture.height
}

/// The colour table once each of the first `n` particles has given its slot
/// the colour of the picture at its sample.
pub open spec fn sampled(
    colors: Seq<Color>,
    cs: Seq<Circle>,
    picture: Picture,
    samples: Seq<Pixel>,
    n: nat,
) -> Seq<Color>
    decreases n,
{
    if n == 0 {
        colors
    } else {
        sampled(colors, cs, picture, samples, (n - 1) as nat).update(
            cs[n - 1].index as int,
            picture.pixel(samples[n - 1].x, samples[n - 1].y),
        )
    }
}

/// Sampling keeps the size of the table, and leaves the slots that have no
/// particle as they were.
pub proof fn lemma_sampled_rest(
    colors: Seq<Color>,
    cs: Seq<Circle>,
    picture: Picture,
    samples: Seq<Pixel>,
    n: nat,
)
    requires
        slots_distinct(cs),
        n <= cs.len() <= colors.len(),
    ensures
        sampled(colors, cs, picture, samples, n).len() == colors.len(),
        forall|s: int|
            cs.len() <= s < colors.len() ==> sampled(colors, cs, picture, samples, n)[s]
                == colors[s],
    decreases n,
{
    if n > 0 {
        lemma_sampled_rest(colors, cs, picture, samples, (n - 1) as nat);
        assert(cs[n - 1].index < cs.len());
    }
}

/// After sampling, the slot of each particle that took part has the colour of
/// the picture at that particle's sample.
pub proof fn lemma_sampled_slot(
    colors: Seq<Color>,
    cs: Seq<Circle>,
    picture: Picture,
    samples: Seq<Pixel>,
    n: nat,
    i: int,
)
    requires
        slots_distinct(cs),
        n <= cs.len() <= colors.len(),
        0 <= i < n,
    ensures
        sampled(colors, cs, picture, samples, n)[cs[i].index as int] == picture.pixel(
            samples[i].x,
            samples[i].y,
        ),
    decreases n,
{
    lemma_sampled_rest(colors, cs, picture, samples, (n - 1) as nat);
    assert(cs[n - 1].index < cs.len());
    assert(cs[i].index < cs.len());
    if i < n - 1 {
        lemma_sampled_slot(colors, cs, picture, samples, (n - 1) as nat, i);
        assert(cs[i].index != cs[n - 1].index);
    }
}

/// The table that sampling gives rests on the particles' slots and not on
/// their colours.
pub proof fn law_sampling_is_blind_to_colour(
    colors: Seq<Color>,
    a: Seq<Circle>,
    b: Seq<Circle>,
    picture: Picture,
    samples: Seq<Pixel>,
    n: nat,
)
    requires
        same_bodies(a, b),
        n <= a.len(),
    ensures
        sampled(colors, a, picture, samples, n) == sampled(colors, b, picture, samples, n),
    decreases n,
{
    if n > 0 {
        law_sampling_is_blind_to_colour(colors, a, b, picture, samples, (n - 1) as nat);
        assert(body(a[n - 1]) == body(b[n - 1]));
    }
}

/// In a picture of one colour, each particle that took part in the sampling
/// has given its slot that colour.
proof fn lemma_sampled_uniform(
    colors: Seq<Color>,
    cs: Seq<Circle>,
    picture: Picture,
    samples: Seq<Pixel>,
    c: Color,
    n: nat,
    i: int,
)
    requires
        slots_distinct(cs),
        n <= cs.len() <= colors.len(),
        samples.len() == cs.len(),
        fits(picture, samples),
        picture.uniform(c),
        0 <= i < n,
    ensures
        sampled(colors, cs, picture, samples, n)[cs[i].index as int] == c,
{
    lemma_sampled_slot(colors, cs, picture, samples, n, i);
    assert(samples[i].x < picture.width);
}

/// A picture of one colour gives that colour to every slot of the table,
/// whatever the number of particles and wherever they came to rest, as long
/// as every slot has its particle.
pub proof fn law_uniform_picture_fills_table(
    colors: Seq<Color>,
    cs: Seq<Circle>,
    picture: Picture,
    samples: Seq<Pixel>,
    c: Color,
)
    requires
        slots_distinct(cs),
        slots_cover(cs),
        cs.len() == colors.len(),
        samples.len() == cs.len(),
        fits(picture, samples),
        picture.uniform(c),
    ensures
        sampled(colors, cs, picture, samples, cs.len()).len() == colors.len(),
        forall|s: int|
            0 <= s < colors.len() ==> #[trigger] sampled(colors, cs, picture, samples, cs.len())[s]
                == c,
{
    lemma_sampled_rest(colors, cs, picture, samples, cs.len());
    assert forall|s: int| 0 <= s < colors.len() implies #[trigger] sampled(
        colors,
        cs,
        picture,
        samples,
        cs.len(),
    )[s] == c by {
        assert(slot_taken(cs, s));
        let i = choose|i: int| holds_slot(cs, i, s);
        lemma_sampled_uniform(colors, cs, picture, samples, c, cs.len(), i);
    }
}

/// A calibration run: a simulation that is stepped until it is full and then
/// [`POST_PROCESS`] times more, and whose particles at rest then give the
/// colour table its colours.
pub struct Calibration {
    pub sim: Simulation,
    /// The outer steps that are still to be made once the simulation is full.
    pub settle_left: usize,
}

impl Calibration {
    /// A calibration of `sim`, with all the settling steps ahead.
    pub fn new(sim: Simulation) -> (run: Calibration)
        ensures
            run.sim == sim,
            run.settle_left == POST_PROCESS,
    {
        Calibration { sim, settle_left: POST_PROCESS }
    }

    /// An outer step is still to be made: the simulation is not full, or
    /// settling steps are left.
    pub open spec fn wants_step(&self) -> bool {
        self.sim.circles@.len() < self.sim.max_circles || self.settle_left > 0
    }

    /// Says whether the caller is to make another outer step of `sim`, and
    /// counts that step: a step of a full simulation uses up one settling step.
    pub fn plan(&mut self) -> (go: bool)
        ensures
            go == old(self).wants_step(),
            final(self).sim == old(self).sim,
            final(self).settle_left == if old(self).sim.circles@.len() < old(self).sim.max_circles
                || old(self).settle_left == 0 {
                old(self).settle_left as int
            } else {
                old(self).settle_left - 1
            },
    {
        if self.sim.circles.len() < self.sim.max_circles {
            true
        } else if self.settle_left > 0 {
            self.settle_left = self.settle_left - 1;
            true
        } else {
            false
        }
    }

    /// Ends the run. Each particle gives its slot the colour of `picture` at
    /// its sample, `samples[i]` being that of the particle at `i`; then the
    /// simulation is reset. Returns the simulation, the clock that the run
    /// reached and the number of particles it had.
    pub fn finish(self, picture: &Picture, samples: &Vec<Pixel>) -> (out: (
        Simulation,
        usize,
        usize,
    ))
        requires
            self.sim.wf(),
            picture.wf(),
            samples@.len() == self.sim.circles@.len(),
            fits(*picture, samples@),
        ensures
            out.0.wf(),
            out.0.circles@ == Seq::<Circle>::empty(),
            out.0.clock == self.sim.rand_seed,
            out.0.colors@ == sampled(
                self.sim.colors@,
                self.sim.circles@,
                *picture,
                samples@,
                self.sim.circles@.len(),
            ),
            forall|i: int|
                0 <= i < self.sim.circles@.len() ==> out.0.colors@[(
                #[trigger] self.sim.circles@[i]).index as int] == picture.pixel(
                    samples@[i].x,
                    samples@[i].y,
                ),
            forall|s: int|
                self.sim.circles@.len() <= s < self.sim.colors@.len() ==> #[trigger] out.0.colors@[s]
                    == self.sim.colors@[s],
            out.0.max_circles == self.sim.max_circles,
            out.0.substeps == self.sim.substeps,
            out.0.rand_seed == self.sim.rand_seed,
            out.0.low == self.sim.low,
            out.0.high == self.sim.high,
            out.1 == self.sim.clock,
            out.2 == self.sim.circles@.len(),
    {
        let mut sim = self.sim;
        let total_iterations = sim.clock;
        let max_circles = sim.circles.len();
        let ghost colors = sim.colors@;
        let ghost cs = sim.circles@;
        let mut i: usize = 0;
        while i < max_circles
            invariant
                i <= max_circles,
                max_circles == cs.len(),
                cs.len() <= colors.len(),
                sim.circles@ == cs,
                samples@.len() == cs.len(),
                slots_distinct(cs),
                picture.wf(),
                fits(*picture, samples@),
                sim.colors@ == sampled(colors, cs, *picture, samples@, i as nat),
                sim.max_circles == self.sim.max_circles,
                sim.substeps == self.sim.substeps,
                sim.rand_seed == self.sim.rand_seed,
                sim.low == self.sim.low,
                sim.high == self.sim.high,
            decreases max_circles - i,
        {
            proof {
                lemma_sampled_rest(colors, cs, *picture, samples@, i as nat);
            }
            let slot = sim.circles[i].index;
            let sample = samples[i];
            let color = picture.get_pixel(sample.x, sample.y);
            sim.colors.set(slot, color);
            i += 1;
        }
        proof {
            lemma_sampled_rest(colors, cs, *picture, samples@, cs.len());
            assert forall|k: int| 0 <= k < cs.len() implies sim.colors@[(
            #[trigger] cs[k]).index as int] == picture.pixel(samples@[k].x, samples@[k].y) by {
                lemma_sampled_slot(colors, cs, *picture, samples@, cs.len(), k);
            }
        }
        sim.circles.clear();
        sim.clock = sim.rand_seed;
        (sim, total_iterations, max_circles)
    }
}

} // verus!
