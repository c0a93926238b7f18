use vstd::prelude::*;
use crate::helper::{clamp, clamped, Color, Vector2};

verus! {

/// One particle.
#[derive(Clone, Copy, Debug, PartialEq, Eq, Structural)]
pub struct Circle {
    pub position: Vector2,
    /// Where the particle was one substep ago; with `position` it gives the
    /// particle's velocity.
    pub last_position: Vector2,
    pub radius: u32,
    pub color: Color,
    /// The particle's slot: its place in the order of creation. It never
    /// changes, and it is the key into the colour table.
    pub index: usize,
}

/// What is needed to create one particle.
#[derive(Clone, Copy, Debug, PartialEq, Eq, Structural)]
pub struct Launch {
    pub position: Vector2,
    pub last_position: Vector2,
    pub radius: u32,
}

/// The particles of a run, the colour of each slot, the clock and the area.
pub struct Simulation {
    /// The live particles. After [`Simulation::sort`] they ascend by
    /// `position.x`.
    pub circles: Vec<Circle>,
    /// The colour of each slot.
    pub colors: Vec<Color>,
    pub max_circles: usize,
    /// Counts substeps, starting from the seed.
    pub clock: usize,
    pub substeps: usize,
    pub rand_seed: usize,
    /// The least position a particle may have, on each axis.
    pub low: Vector2,
    /// The greatest position a particle may have, on each axis.
    pub high: Vector2,
}

/// Every particle has a slot below the number of particles, and no two share
/// one.
pub open spec fn slots_distinct(cs: Seq<Circle>) -> bool {
    &&& forall|i: int| 0 <= i < cs.len() ==> (#[trigger] cs[i]).index < cs.len()
    &&& forall|i: int, j: int|
        0 <= i < j < cs.len() ==> (#[trigger] cs[i]).index != (#[trigger] cs[j]).index
}

/// Every slot below the number of particles belongs to a particle.
pub open spec fn slots_cover(cs: Seq<Circle>) -> bool {
    forall|s: int| 0 <= s < cs.len() ==> #[trigger] slot_taken(cs, s)
}

/// Some particle has slot `s`.
pub open spec fn slot_taken(cs: Seq<Circle>, s: int) -> bool {
    exists|i: int| holds_slot(cs, i, s)
}

/// The particle at `i` has slot `s`.
pub open spec fn holds_slot(cs: Seq<Circle>, i: int, s: int) -> bool {
    0 <= i < cs.len() && cs[i].index == s
}

/// A colour table of `n` slots, all white.
pub open spec fn white_table(n: nat) -> Seq<Color> {
    Seq::new(n, |i: int| Color(255, 255, 255))
}

/// Every particle has the colour that the table gives its slot.
pub open spec fn colored_by(cs: Seq<Circle>, colors: Seq<Color>) -> bool {
    forall|i: int|
        0 <= i < cs.len() ==> (#[trigger] cs[i]).index < colors.len() && cs[i].color
            == colors[cs[i].index as int]
}

/// Every particle's position lies between `low` and `high` on both axes.
pub open spec fn within(cs: Seq<Circle>, low: Vector2, high: Vector2) -> bool {
    forall|i: int|
        0 <= i < cs.len() ==> low.x <= (#[trigger] cs[i]).position.x <= high.x && low.y
            <= cs[i].position.y <= high.y
}

/// The particles ascend by `position.x`.
pub open spec fn ascending(cs: Seq<Circle>) -> bool {
    forall|i: int, j: int|
        0 <= i <= j < cs.len() ==> (#[trigger] cs[i]).position.x <= (#[trigger] cs[j]).position.x
}

/// `c` with its position clamped between `low` and `high` on both axes.
pub open spec fn constrained(c: Circle, low: Vector2, high: Vector2) -> Circle {
    Circle {
        position: Vector2 {
            x: clamped(c.position.x, low.x, high.x),
            y: clamped(c.position.y, low.y, high.y),
        },
        ..c
    }
}

/// Every particle of `cs`, constrained.
pub open spec fn constrained_all(cs: Seq<Circle>, low: Vector2, high: Vector2) -> Seq<Circle> {
    Seq::new(cs.len(), |i: int| constrained(cs[i], low, high))
}

/// `to` holds the particles of `from` in another order: the particle at `k` in
/// `to` stood at `at[k]` in `from`, and the particle at `i` in `from` stands at
/// `back[i]` in `to`. Particles with the same `position.x` keep the order they
/// had.
pub open spec fn rearranged(from: Seq<Circle>, to: Seq<Circle>, at: Seq<int>, back: Seq<int>) -> bool {
    &&& to.len() == from.len()
    &&& at.len() == from.len()
    &&& back.len() == from.len()
    &&& forall|k: int|
        0 <= k < at.len() ==> 0 <= #[trigger] at[k] < from.len() && back[at[k]] == k
    &&& forall|i: int|
        0 <= i < back.len() ==> 0 <= #[trigger] back[i] < from.len() && at[back[i]] == i
    &&& forall|k: int| 0 <= k < at.len() ==> #[trigger] to[k] == from[at[k]]
    &&& forall|k: int, l: int|
        0 <= k < l < at.len() && to[k].position.x == to[l].position.x ==> #[trigger] at[k]
            < #[trigger] at[l]
}

/// `to` is `from` sorted ascending by `position.x`, particles with the same
/// `position.x` in the order they had.
pub open spec fn sorted_from(from: Seq<Circle>, to: Seq<Circle>) -> bool {
    ascending(to) && exists|at: Seq<int>, back: Seq<int>| rearranged(from, to, at, back)
}

/// What the motion of a particle rests on: all of it but the colour.
pub open spec fn body(c: Circle) -> (Vector2, Vector2, u32, usize) {
    (c.position, c.last_position, c.radius, c.index)
}

/// `a` and `b` hold the same particles, whatever their colours.
pub open spec fn same_bodies(a: Seq<Circle>, b: Seq<Circle>) -> bool {
    a.len() == b.len() && forall|i: int| 0 <= i < a.len() ==> body(#[trigger] a[i]) == body(b[i])
}

/// Two sorted arrangements of the same bodies take each particle from the
/// same place, up to `k`.
proof fn lemma_same_places(
    from1: Seq<Circle>,
    to1: Seq<Circle>,
    at1: Seq<int>,
    back1: Seq<int>,
    from2: Seq<Circle>,
    to2: Seq<Circle>,
    at2: Seq<int>,
    back2: Seq<int>,
    k: int,
)
    requires
        same_bodies(from1, from2),
        rearranged(from1, to1, at1, back1),
        rearranged(from2, to2, at2, back2),
        ascending(to1),
        ascending(to2),
        0 <= k <= from1.len(),
    ensures
        forall|j: int| 0 <= j < k ==> at1[j] == at2[j],
    decreases k,
{
    if k > 0 {
        lemma_same_places(from1, to1, at1, back1, from2, to2, at2, back2, k - 1);
        let j = k - 1;
        let a = at1[j];
        let b = at2[j];
        if a != b {
            let m1 = back1[b];
            let m2 = back2[a];
            assert(at1[m1] == b && at2[m2] == a);
            assert(body(from1[a]) == body(from2[a]));
            assert(body(from1[b]) == body(from2[b]));
            if m1 < j {
                assert(at2[m1] == b);
                assert(back2[at2[m1]] == m1 && back2[at2[j]] == j);
                assert(false);
            }
            if m2 < j {
                assert(at1[m2] == a);
                assert(back1[at1[m2]] == m2 && back1[at1[j]] == j);
                assert(false);
            }
            assert(m1 != j && m2 != j);
            assert(to1[j] == from1[a] && to1[m1] == from1[b]);
            assert(to2[j] == from2[b] && to2[m2] == from2[a]);
            assert(to1[j].position.x <= to1[m1].position.x);
            assert(to2[j].position.x <= to2[m2].position.x);
            assert(at1[j] < at1[m1]);
            assert(at2[j] < at2[m2]);
            assert(false);
        }
    }
}

/// Sorting is determined, and blind to colour: two sorted arrangements of the
/// same bodies hold the same bodies at every place. With `from1` and `from2`
/// equal, the two arrangements are equal.
pub proof fn law_sort_is_determined(
    from1: Seq<Circle>,
    to1: Seq<Circle>,
    from2: Seq<Circle>,
    to2: Seq<Circle>,
)
    requires
        same_bodies(from1, from2),
        sorted_from(from1, to1),
        sorted_from(from2, to2),
    ensures
        same_bodies(to1, to2),
        from1 == from2 ==> to1 == to2,
{
    let (at1, back1) = choose|at: Seq<int>, back: Seq<int>| rearranged(from1, to1, at, back);
    let (at2, back2) = choose|at: Seq<int>, back: Seq<int>| rearranged(from2, to2, at, back);
    lemma_same_places(from1, to1, at1, back1, from2, to2, at2, back2, from1.len() as int);
    assert forall|i: int| 0 <= i < to1.len() implies body(#[trigger] to1[i]) == body(to2[i]) by {
        assert(at1[i] == at2[i]);
        assert(to1[i] == from1[at1[i]]);
        assert(to2[i] == from2[at2[i]]);
        assert(body(from1[at1[i]]) == body(from2[at1[i]]));
    }
    if from1 == from2 {
        assert forall|i: int| 0 <= i < to1.len() implies to1[i] == to2[i] by {
            assert(at1[i] == at2[i]);
            assert(to1[i] == from1[at1[i]]);
            assert(to2[i] == from2[at2[i]]);
        }
        assert(to1 =~= to2);
    }
}

/// The particle that `launch` creates in slot `index`.
pub open spec fn launched(launch: Launch, colors: Seq<Color>, index: int) -> Circle {
    Circle {
        position: launch.position,
        last_position: launch.last_position,
        radius: launch.radius,
        color: colors[index],
        index: index as usize,
    }
}

/// The particles after one pass of the spawn gate: `left` is created if there
/// is room for it, and then `right` if there is still room.
pub open spec fn spawned(
    cs: Seq<Circle>,
    colors: Seq<Color>,
    max: int,
    left: Launch,
    right: Launch,
) -> Seq<Circle> {
    let first = if cs.len() < max {
        cs.push(launched(left, colors, cs.len() as int))
    } else {
        cs
    };
    if first.len() < max {
        first.push(launched(right, colors, first.len() as int))
    } else {
        first
    }
}

/// `c` moved to `to`: where it was is now its last position.
pub open spec fn moved(c: Circle, to: Vector2) -> Circle {
    Circle { position: to, last_position: c.position, ..c }
}

/// `c` at another position.
pub open spec fn placed(c: Circle, position: Vector2) -> Circle {
    Circle { position, ..c }
}

/// `cs` once the particle at `i` has been put at `to_i` and then the particle
/// at `j` at `to_j`.
pub open spec fn displaced(cs: Seq<Circle>, i: int, j: int, to_i: Vector2, to_j: Vector2) -> Seq<
    Circle,
> {
    let first = cs.update(i, placed(cs[i], to_i));
    first.update(j, placed(first[j], to_j))
}

/// `b` holds the particles of `a`, each at its place in the order, and
/// nothing but their positions may differ.
pub open spec fn only_positions_differ(a: Seq<Circle>, b: Seq<Circle>) -> bool {
    a.len() == b.len() && forall|k: int|
        0 <= k < a.len() ==> #[trigger] b[k] == placed(a[k], b[k].position)
}

/// Every particle of `cs` after the motion at its place in `ms`.
pub open spec fn moved_all(cs: Seq<Circle>, ms: Seq<Vector2>) -> Seq<Circle> {
    Seq::new(cs.len(), |i: int| moved(cs[i], ms[i]))
}

/// What a run does to the bodies of its particles does not rest on the colour
/// table: from the same bodies, the spawn gate, the constraint, a push apart
/// and the motions lead to the same bodies, whatever colour each slot has.
/// (For the sort, see [`law_sort_is_determined`].) So a run that starts again
/// from the seed, with another colour table, goes as the first one went.
pub proof fn law_motion_is_blind_to_colour(
    a: Seq<Circle>,
    b: Seq<Circle>,
    colors_a: Seq<Color>,
    colors_b: Seq<Color>,
    max: int,
    left: Launch,
    right: Launch,
    low: Vector2,
    high: Vector2,
    i: int,
    j: int,
    to_i: Vector2,
    to_j: Vector2,
    motions: Seq<Vector2>,
)
    requires
        same_bodies(a, b),
    ensures
        same_bodies(spawned(a, colors_a, max, left, right), spawned(b, colors_b, max, left, right)),
        same_bodies(constrained_all(a, low, high), constrained_all(b, low, high)),
        0 <= i < a.len() && 0 <= j < a.len() ==> same_bodies(
            displaced(a, i, j, to_i, to_j),
            displaced(b, i, j, to_i, to_j),
        ),
        same_bodies(moved_all(a, motions), moved_all(b, motions)),
{
    if 0 <= i < a.len() && 0 <= j < a.len() {
        assert forall|k: int| 0 <= k < a.len() implies body(
            #[trigger] displaced(a, i, j, to_i, to_j)[k],
        ) == body(displaced(b, i, j, to_i, to_j)[k]) by {
            assert(body(a[k]) == body(b[k]));
            assert(body(a[i]) == body(b[i]));
            assert(body(a[j]) == body(b[j]));
        }
    }
    let first_a = if a.len() < max {
        a.push(launched(left, colors_a, a.len() as int))
    } else {
        a
    };
    let first_b = if b.len() < max {
        b.push(launched(left, colors_b, b.len() as int))
    } else {
        b
    };
    assert(same_bodies(first_a, first_b)) by {
        assert forall|i: int| 0 <= i < first_a.len() implies body(#[trigger] first_a[i]) == body(
            first_b[i],
        ) by {
            if i < a.len() {
                assert(body(a[i]) == body(b[i]));
            }
        }
    }
    assert forall|i: int|
        0 <= i < spawned(a, colors_a, max, left, right).len() implies body(
        #[trigger] spawned(a, colors_a, max, left, right)[i],
    ) == body(spawned(b, colors_b, max, left, right)[i]) by {
        if i < first_a.len() {
            assert(body(first_a[i]) == body(first_b[i]));
        }
    }
    assert forall|i: int| 0 <= i < a.len() implies body(
        #[trigger] constrained_all(a, low, high)[i],
    ) == body(constrained_all(b, low, high)[i]) by {
        assert(body(a[i]) == body(b[i]));
    }
    assert forall|i: int| 0 <= i < a.len() implies body(#[trigger] moved_all(a, motions)[i])
        == body(moved_all(b, motions)[i]) by {
        assert(body(a[i]) == body(b[i]));
    }
}

/// What a particle keeps for as long as it lives: its slot, its radius and
/// its colour.
pub open spec fn stock(c: Circle) -> (usize, u32, Color) {
    (c.index, c.radius, c.color)
}

/// Some particle of `cs` has the slot, the radius and the colour of `c`.
pub open spec fn in_stock(cs: Seq<Circle>, c: Circle) -> bool {
    exists|k: int| 0 <= k < cs.len() && stock(#[trigger] cs[k]) == stock(c)
}

/// Every particle of `from` is found in `to` with its slot, its radius and
/// its colour.
pub open spec fn keeps_stock(from: Seq<Circle>, to: Seq<Circle>) -> bool {
    forall|i: int| 0 <= i < from.len() ==> in_stock(to, #[trigger] from[i])
}

/// Where `to` has, at the place of each particle of `from`, a particle of
/// the same slot, radius and colour, it keeps the stock of `from`.
pub proof fn lemma_stock_by_place(from: Seq<Circle>, to: Seq<Circle>)
    requires
        from.len() <= to.len(),
        forall|i: int| 0 <= i < from.len() ==> stock(#[trigger] to[i]) == stock(from[i]),
    ensures
        keeps_stock(from, to),
{
    assert forall|i: int| 0 <= i < from.len() implies in_stock(to, #[trigger] from[i]) by {
        assert(stock(to[i]) == stock(from[i]));
    }
}

/// What keeps the stock of what keeps the stock of `a` keeps the stock of `a`.
pub proof fn lemma_stock_chain(a: Seq<Circle>, b: Seq<Circle>, c: Seq<Circle>)
    requires
        keeps_stock(a, b),
        keeps_stock(b, c),
    ensures
        keeps_stock(a, c),
{
    assert forall|i: int| 0 <= i < a.len() implies in_stock(c, #[trigger] a[i]) by {
        assert(in_stock(b, a[i]));
        let k = choose|k: int| 0 <= k < b.len() && stock(#[trigger] b[k]) == stock(a[i]);
        assert(in_stock(c, b[k]));
        let l = choose|l: int| 0 <= l < c.len() && stock(#[trigger] c[l]) == stock(b[k]);
        assert(stock(c[l]) == stock(a[i]));
    }
}

/// A substep keeps the stock: clamping, sorting, pushing apart and moving
/// change no particle's slot, radius or colour, and lose no particle.
pub proof fn lemma_substep_keeps_stock(
    from: Seq<Circle>,
    low: Vector2,
    high: Vector2,
    sorted: Seq<Circle>,
    pushed: Seq<Circle>,
    positions: Seq<Vector2>,
)
    requires
        sorted_from(constrained_all(from, low, high), sorted),
        only_positions_differ(sorted, pushed),
        positions.len() == pushed.len(),
    ensures
        keeps_stock(from, moved_all(pushed, positions)),
{
    let clamped = constrained_all(from, low, high);
    let to = moved_all(pushed, positions);
    let (at, back) = choose|at: Seq<int>, back: Seq<int>| rearranged(clamped, sorted, at, back);
    assert forall|i: int| 0 <= i < from.len() implies in_stock(to, #[trigger] from[i]) by {
        let k = back[i];
        assert(at[k] == i);
        assert(sorted[k] == clamped[at[k]]);
        assert(pushed[k] == placed(sorted[k], pushed[k].position));
        assert(stock(to[k]) == stock(from[i]));
    }
}

/// Where every particle of `from` is found again in `to` with its slot, at the
/// place that `place` gives, `to` has the slots of `from` covered.
pub proof fn lemma_cover_moves(from: Seq<Circle>, to: Seq<Circle>, place: spec_fn(int) -> int)
    requires
        from.len() == to.len(),
        slots_cover(from),
        forall|i: int|
            0 <= i < from.len() ==> 0 <= #[trigger] place(i) < to.len() && to[place(i)].index
                == from[i].index,
    ensures
        slots_cover(to),
{
    assert forall|s: int| 0 <= s < to.len() implies #[trigger] slot_taken(to, s) by {
        assert(slot_taken(from, s));
        let i = choose|i: int| holds_slot(from, i, s);
        assert(holds_slot(to, place(i), s));
    }
}

impl Simulation {
    /// The table has a colour for each of the `max_circles` slots; the
    /// particles are no more than that; the area is not empty; the particles'
    /// slots are the numbers below their count, each once; and each particle
    /// has the colour of its slot.
    pub open spec fn wf(&self) -> bool {
        &&& self.colors@.len() == self.max_circles
        &&& self.circles@.len() <= self.max_circles
        &&& self.low.x <= self.high.x
        &&& self.low.y <= self.high.y
        &&& slots_distinct(self.circles@)
        &&& slots_cover(self.circles@)
        &&& colored_by(self.circles@, self.colors@)
    }

    /// Everything but the particles and the clock is as in `other`.
    pub open spec fn same_setup(&self, other: Simulation) -> bool {
        &&& self.colors == other.colors
        &&& self.max_circles == other.max_circles
        &&& self.substeps == other.substeps
        &&& self.rand_seed == other.rand_seed
        &&& self.low == other.low
        &&& self.high == other.high
    }

    /// An empty simulation for at most `max_circles` particles, with every slot
    /// white and the clock at `rand_seed`.
    pub fn new(max_circles: usize, rand_seed: usize, low: Vector2, high: Vector2) -> (sim:
        Simulation)
        requires
            low.x <= high.x,
            low.y <= high.y,
        ensures
            sim.wf(),
            sim.circles@.len() == 0,
            sim.colors@ == white_table(max_circles as nat),
            sim.max_circles == max_circles,
            sim.clock == rand_seed,
            sim.rand_seed == rand_seed,
            sim.substeps == 8,
            sim.low == low,
            sim.high == high,
    {
        let mut colors: Vec<Color> = Vec::new();
        let mut i: usize = 0;
        while i < max_circles
            invariant
                i <= max_circles,
                colors@ == Seq::new(i as nat, |k: int| Color(255, 255, 255)),
            decreases max_circles - i,
        {
            colors.push(Color(255, 255, 255));
            i += 1;
            assert(colors@ =~= Seq::new(i as nat, |k: int| Color(255, 255, 255)));
        }
        assert(colors@ =~= white_table(max_circles as nat));
        Simulation {
            circles: Vec::new(),
            colors,
            max_circles,
            clock: rand_seed,
            substeps: 8,
            rand_seed,
            low,
            high,
        }
    }

    /// The number of live particles.
    pub fn circles(&self) -> (n: usize)
        ensures
            n == self.circles@.len(),
    {
        self.circles.len()
    }

    /// Creates a particle in the next free slot, with that slot's colour.
    pub fn add_circle(&mut self, launch: Launch)
        requires
            old(self).wf(),
            old(self).circles@.len() < old(self).max_circles,
        ensures
            final(self).wf(),
            final(self).circles@ == old(self).circles@.push(
                launched(launch, old(self).colors@, old(self).circles@.len() as int),
            ),
            final(self).same_setup(*old(self)),
            final(self).clock == old(self).clock,
    {
        let index = self.circles.len();
        let color = self.colors[index];
        let ghost before = self.circles@;
        self.circles.push(
            Circle {
                position: launch.position,
                last_position: launch.last_position,
                radius: launch.radius,
                color,
                index,
            },
        );
        proof {
            assert forall|s: int| 0 <= s < self.circles@.len() implies #[trigger] slot_taken(
                self.circles@,
                s,
            ) by {
                if s == index {
                    assert(holds_slot(self.circles@, index as int, s));
                } else {
                    assert(slot_taken(before, s));
                    let i = choose|i: int| holds_slot(before, i, s);
                    assert(holds_slot(self.circles@, i, s));
                }
            }
        }
    }

    /// Clamps every particle's position between `low` and `high`.
    pub fn constrain_rect(&mut self)
        requires
            old(self).wf(),
        ensures
            final(self).wf(),
            final(self).circles@.len() == old(self).circles@.len(),
            final(self).circles@ == constrained_all(
                old(self).circles@,
                old(self).low,
                old(self).high,
            ),
            within(final(self).circles@, old(self).low, old(self).high),
            final(self).same_setup(*old(self)),
            final(self).clock == old(self).clock,
    {
        let n = self.circles.len();
        let mut i: usize = 0;
        while i < n
            invariant
                i <= n,
                n == self.circles@.len(),
                n == old(self).circles@.len(),
                self.low.x <= self.high.x,
                self.low.y <= self.high.y,
                forall|k: int|
                    0 <= k < i ==> #[trigger] self.circles@[k] == constrained(
                        old(self).circles@[k],
                        self.low,
                        self.high,
                    ),
                forall|k: int| i <= k < n ==> #[trigger] self.circles@[k] == old(self).circles@[k],
                self.same_setup(*old(self)),
                self.clock == old(self).clock,
            decreases n - i,
        {
            let c = self.circles[i];
            let x = clamp(c.position.x, self.low.x, self.high.x);
            let y = clamp(c.position.y, self.low.y, self.high.y);
            self.circles.set(
                i,
                Circle {
                    position: Vector2 { x, y },
                    last_position: c.last_position,
                    radius: c.radius,
                    color: c.color,
                    index: c.index,
                },
            );
            i += 1;
        }
        assert(self.circles@ =~= constrained_all(old(self).circles@, self.low, self.high));
        proof {
            lemma_cover_moves(old(self).circles@, self.circles@, |i: int| i);
        }
    }

    /// Sorts the particles ascending by `position.x`, by insertion: particles
    /// with the same `position.x` keep their order.
    pub fn sort(&mut self)
        requires
            old(self).wf(),
        ensures
            final(self).wf(),
            ascending(final(self).circles@),
            sorted_from(old(self).circles@, final(self).circles@),
            final(self).same_setup(*old(self)),
            final(self).clock == old(self).clock,
    {
        let n = self.circles.len();
        let ghost mut at: Seq<int> = Seq::new(n as nat, |k: int| k);
        let ghost mut back: Seq<int> = Seq::new(n as nat, |k: int| k);
        let mut i: usize = 1;
        while i < n
            invariant
                1 <= i,
                self.circles@.len() == n,
                self.wf(),
                rearranged(old(self).circles@, self.circles@, at, back),
                forall|a: int, b: int|
                    0 <= a <= b < i && b < n ==> (#[trigger] self.circles@[a]).position.x <= (
                    #[trigger] self.circles@[b]).position.x,
                self.same_setup(*old(self)),
                self.clock == old(self).clock,
            decreases n - i,
        {
            let mut j: usize = i;
            while j > 0 && self.circles[j - 1].position.x > self.circles[j].position.x
                invariant
                    j <= i < n,
                    self.circles@.len() == n,
                    self.wf(),
                    rearranged(old(self).circles@, self.circles@, at, back),
                    forall|a: int, b: int|
                        0 <= a <= b <= i && a != j && b != j ==> (
                        #[trigger] self.circles@[a]).position.x <= (
                        #[trigger] self.circles@[b]).position.x,
                    forall|b: int|
                        j < b <= i ==> self.circles@[j as int].position.x < (
                        #[trigger] self.circles@[b]).position.x,
                    self.same_setup(*old(self)),
                    self.clock == old(self).clock,
                decreases j,
            {
                let lower = self.circles[j - 1];
                let upper = self.circles[j];
                let ghost before = self.circles@;
                self.circles.set(j - 1, upper);
                self.circles.set(j, lower);
                proof {
                    lemma_cover_moves(
                        before,
                        self.circles@,
                        |i: int|
                            if i == j - 1 {
                                j as int
                            } else if i == j {
                                j - 1
                            } else {
                                i
                            },
                    );
                    back = back.update(at[j as int], j - 1).update(at[j - 1], j as int);
                    at = at.update(j - 1, at[j as int]).update(j as int, at[j - 1]);
                }
                j -= 1;
            }
            i += 1;
        }
    }

    /// The first half of a substep: clamps every particle into the area, then
    /// sorts the particles by `position.x`.
    pub fn settle(&mut self)
        requires
            old(self).wf(),
        ensures
            final(self).wf(),
            within(final(self).circles@, old(self).low, old(self).high),
            ascending(final(self).circles@),
            sorted_from(
                constrained_all(old(self).circles@, old(self).low, old(self).high),
                final(self).circles@,
            ),
            final(self).same_setup(*old(self)),
            final(self).clock == old(self).clock,
    {
        self.constrain_rect();
        let ghost clamped = self.circles@;
        self.sort();
        proof {
            let (at, back) = choose|at: Seq<int>, back: Seq<int>|
                rearranged(clamped, self.circles@, at, back);
            assert forall|k: int| 0 <= k < self.circles@.len() implies self.low.x <= (
            #[trigger] self.circles@[k]).position.x <= self.high.x && self.low.y
                <= self.circles@[k].position.y <= self.high.y by {
                assert(self.circles@[k] == clamped[at[k]]);
            }
        }
    }
    /// The start of an outer step: the spawn gate. Each of the two launch
    /// points creates its particle only if a slot is free when its turn comes.
    pub fn spawn(&mut self, left: Launch, right: Launch) -> (count: usize)
        requires
            old(self).wf(),
        ensures
            final(self).wf(),
            final(self).circles@ == spawned(
                old(self).circles@,
                old(self).colors@,
                old(self).max_circles as int,
                left,
                right,
            ),
            count == final(self).circles@.len() - old(self).circles@.len(),
            count == if old(self).max_circles - old(self).circles@.len() >= 2 {
                2
            } else {
                old(self).max_circles - old(self).circles@.len()
            },
            old(self).circles@.is_prefix_of(final(self).circles@),
            final(self).same_setup(*old(self)),
            final(self).clock == old(self).clock,
    {
        let mut count: usize = 0;
        if self.circles.len() < self.max_circles {
            self.add_circle(left);
            count += 1;
        }
        if self.circles.len() < self.max_circles {
            self.add_circle(right);
            count += 1;
        }
        count
    }

    /// Every particle takes the position that its motion came to, and the
    /// position that it had becomes its last position.
    pub fn integrate(&mut self, motions: &Vec<Vector2>)
        requires
            old(self).wf(),
            motions@.len() == old(self).circles@.len(),
        ensures
            final(self).wf(),
            final(self).circles@ == moved_all(old(self).circles@, motions@),
            final(self).clock == old(self).clock,
            final(self).same_setup(*old(self)),
    {
        let n = self.circles.len();
        let mut i: usize = 0;
        while i < n
            invariant
                i <= n,
                n == self.circles@.len(),
                n == old(self).circles@.len(),
                n == motions@.len(),
                forall|k: int|
                    0 <= k < i ==> #[trigger] self.circles@[k] == moved(
                        old(self).circles@[k],
                        motions@[k],
                    ),
                forall|k: int| i <= k < n ==> #[trigger] self.circles@[k] == old(self).circles@[k],
                self.same_setup(*old(self)),
                self.clock == old(self).clock,
            decreases n - i,
        {
            let c = self.circles[i];
            let m = motions[i];
            self.circles.set(
                i,
                Circle {
                    position: m,
                    last_position: c.position,
                    radius: c.radius,
                    color: c.color,
                    index: c.index,
                },
            );
            i += 1;
        }
        assert(self.circles@ =~= moved_all(old(self).circles@, motions@));
        proof {
            lemma_cover_moves(old(self).circles@, self.circles@, |i: int| i);
        }
    }

    /// The particles at `i` and at `j` take new positions, the one at `i`
    /// first: where `i` is `j`, the particle ends at `to_j`.
    pub fn displace(&mut self, i: usize, j: usize, to_i: Vector2, to_j: Vector2)
        requires
            old(self).wf(),
            i < old(self).circles@.len(),
            j < old(self).circles@.len(),
        ensures
            final(self).wf(),
            final(self).circles@ == displaced(old(self).circles@, i as int, j as int, to_i, to_j),
            final(self).clock == old(self).clock,
            final(self).same_setup(*old(self)),
    {
        let a = self.circles[i];
        self.circles.set(
            i,
            Circle {
                position: to_i,
                last_position: a.last_position,
                radius: a.radius,
                color: a.color,
                index: a.index,
            },
        );
        let b = self.circles[j];
        self.circles.set(
            j,
            Circle {
                position: to_j,
                last_position: b.last_position,
                radius: b.radius,
                color: b.color,
                index: b.index,
            },
        );
        proof {
            lemma_cover_moves(old(self).circles@, self.circles@, |i: int| i);
        }
    }

    /// The end of a substep: the clock moves on by one.
    pub fn tick(&mut self)
        requires
            old(self).clock < usize::MAX,
        ensures
            final(self).clock == old(self).clock + 1,
            final(self).circles == old(self).circles,
            final(self).same_setup(*old(self)),
    {
        self.clock = self.clock + 1;
    }

    /// Removes every particle and puts the clock back to the seed. The colour
    /// table stays.
    pub fn reset(&mut self)
        requires
            old(self).wf(),
        ensures
            final(self).wf(),
            final(self).circles@ == Seq::<Circle>::empty(),
            final(self).clock == old(self).rand_seed,
            final(self).same_setup(*old(self)),
    {
        self.circles.clear();
        self.clock = self.rand_seed;
    }
}

} // verus!
