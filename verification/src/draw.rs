use vstd::prelude::*;
use vstd::arithmetic::div_mod::lemma_fundamental_div_mod_converse;
use crate::helper::{Color, Vector2};
use crate::sim::Simulation;

verus! {

/// What a renderer is told of one particle. Position and radius are ordinals,
/// as in the simulation.
#[derive(Clone, Copy, Debug, PartialEq, Eq, Structural)]
pub struct Circle {
    pub position: Vector2,
    pub radius: u32,
    pub color: Color,
}

/// A disc on the pixel grid. `x`, `y` and `radius` count in steps of which
/// [`SCALE`] make the side of a pixel; the pixel in column 0 of row 0 has its
/// corner at the origin.
#[derive(Clone, Copy, Debug, PartialEq, Eq, Structural)]
pub struct Disc {
    pub x: i32,
    pub y: i32,
    pub radius: u32,
    pub color: Color,
}

/// The steps of a [`Disc`]'s coordinates that make the side of a pixel.
pub const SCALE: u32 = 256;

/// The colour of a pixel that no disc covers. Every pixel is opaque.
pub open spec fn background() -> Color {
    Color(0, 0, 0)
}

/// The descriptor of each particle of `cs`, in their order.
pub open spec fn described_all(cs: Seq<crate::sim::Circle>) -> Seq<Circle> {
    Seq::new(
        cs.len(),
        |i: int| Circle { position: cs[i].position, radius: cs[i].radius, color: cs[i].color },
    )
}

/// The descriptor of each particle of `sim`, in the particles' order.
pub open spec fn described(sim: Simulation) -> Seq<Circle> {
    described_all(sim.circles@)
}

/// `d` covers the pixel in column `px` of row `py`: the centre of the pixel is
/// no farther from the centre of the disc than the radius.
pub open spec fn covers(d: Disc, px: int, py: int) -> bool {
    let dx = px * SCALE + SCALE / 2 - d.x;
    let dy = py * SCALE + SCALE / 2 - d.y;
    dx * dx + dy * dy <= d.radius * d.radius
}

/// The colour of the pixel in column `px` of row `py` once the first `n` discs
/// have been drawn, in their order, over the background: that of the last of
/// them that covers the pixel.
pub open spec fn painted(discs: Seq<Disc>, n: nat, px: int, py: int) -> Color
    decreases n,
{
    if n == 0 {
        background()
    } else if covers(discs[n - 1], px, py) {
        discs[n - 1].color
    } else {
        painted(discs, (n - 1) as nat, px, py)
    }
}

/// The byte of an opaque pixel of colour `c` at `channel`: red, green, blue,
/// then the opacity.
pub open spec fn channel(c: Color, channel: int) -> u8 {
    if channel == 0 {
        c.0
    } else if channel == 1 {
        c.1
    } else if channel == 2 {
        c.2
    } else {
        255
    }
}

/// The frame that shows `discs` on `width` by `height` pixels: four bytes for
/// each pixel, the rows from the top and each row from the left.
pub open spec fn rendered(discs: Seq<Disc>, width: int, height: int) -> Seq<u8> {
    Seq::new(
        (4 * (width * height)) as nat,
        |b: int| channel(painted(discs, discs.len(), (b / 4) % width, (b / 4) / width), b % 4),
    )
}

/// The frame of no discs has four bytes for each pixel, and every pixel is
/// the opaque background.
pub proof fn law_empty_frame_is_background(width: u32, height: u32)
    ensures
        rendered(Seq::<Disc>::empty(), width as int, height as int).len() == 4 * (width * height),
        forall|b: int|
            0 <= b < 4 * (width * height) ==> #[trigger] rendered(
                Seq::<Disc>::empty(),
                width as int,
                height as int,
            )[b] == channel(background(), b % 4),
{
    assert(0 <= width * height) by (nonlinear_arith)
        requires
            0 <= width,
            0 <= height,
    ;
}

/// The number of bytes of a frame of `width` by `height` pixels, four for each
/// pixel, where a buffer can be that long.
pub fn frame_len(width: u32, height: u32) -> (len: Option<usize>)
    ensures
        4 * (width * height) <= usize::MAX ==> len == Some((4 * (width * height)) as usize),
        4 * (width * height) > usize::MAX ==> len is None,
{
    assert(0 <= width * height <= 0xffff_ffff * 0xffff_ffff) by (nonlinear_arith)
        requires
            0 <= width <= 0xffff_ffff,
            0 <= height <= 0xffff_ffff,
    ;
    let pixels = width as u64 * height as u64;
    if pixels > (usize::MAX as u64) / 4 {
        None
    } else {
        Some((4 * pixels) as usize)
    }
}

/// Whether `d` covers the pixel in column `px` of row `py`.
pub fn disc_covers(d: &Disc, px: u32, py: u32) -> (inside: bool)
    ensures
        inside == covers(*d, px as int, py as int),
{
    let dx: i128 = px as i128 * 256 + 128 - d.x as i128;
    let dy: i128 = py as i128 * 256 + 128 - d.y as i128;
    let r: i128 = d.radius as i128;
    assert(0 <= dx * dx <= 0x400_0000_0000_0000_0000_0000) by (nonlinear_arith)
        requires
            -0x200_0000_0000 <= dx <= 0x200_0000_0000,
    ;
    assert(0 <= dy * dy <= 0x400_0000_0000_0000_0000_0000) by (nonlinear_arith)
        requires
            -0x200_0000_0000 <= dy <= 0x200_0000_0000,
    ;
    assert(0 <= r * r <= 0x1_0000_0000_0000_0000) by (nonlinear_arith)
        requires
            0 <= r <= 0xffff_ffff,
    ;
    dx * dx + dy * dy <= r * r
}

/// The colour of the pixel in column `px` of row `py` under `discs`.
pub fn shade(discs: &Vec<Disc>, px: u32, py: u32) -> (c: Color)
    ensures
        c == painted(discs@, discs@.len(), px as int, py as int),
{
    let mut n: usize = discs.len();
    while n > 0
        invariant
            n <= discs@.len(),
            painted(discs@, discs@.len(), px as int, py as int) == painted(
                discs@,
                n as nat,
                px as int,
                py as int,
            ),
        decreases n,
    {
        if disc_covers(&discs[n - 1], px, py) {
            return discs[n - 1].color;
        }
        n -= 1;
    }
    Color(0, 0, 0)
}

/// Renders `discs` in their order, later ones over earlier ones, onto an
/// opaque black frame of `width` by `height` pixels.
pub fn render(discs: &Vec<Disc>, width: u32, height: u32) -> (frame: Vec<u8>)
    requires
        4 * (width * height) <= usize::MAX,
    ensures
        frame@ == rendered(discs@, width as int, height as int),
        frame@.len() == 4 * (width * height),
{
    let mut frame: Vec<u8> = Vec::new();
    let mut py: u32 = 0;
    while py < height
        invariant
            py <= height,
            4 * (width * height) <= usize::MAX,
            frame@.len() == 4 * (py * width),
            forall|b: int|
                0 <= b < frame@.len() ==> #[trigger] frame@[b] == channel(
                    painted(discs@, discs@.len(), (b / 4) % (width as int), (b / 4) / (width as int)),
                    b % 4,
                ),
        decreases height - py,
    {
        let mut px: u32 = 0;
        while px < width
            invariant
                py < height,
                px <= width,
                4 * (width * height) <= usize::MAX,
                frame@.len() == 4 * (py * width + px),
                forall|b: int|
                    0 <= b < frame@.len() ==> #[trigger] frame@[b] == channel(
                        painted(
                            discs@,
                            discs@.len(),
                            (b / 4) % (width as int),
                            (b / 4) / (width as int),
                        ),
                        b % 4,
                    ),
            decreases width - px,
        {
            let c = shade(discs, px, py);
            proof {
                lemma_fundamental_div_mod_converse(
                    py * width + px,
                    width as int,
                    py as int,
                    px as int,
                );
            }
            frame.push(c.0);
            frame.push(c.1);
            frame.push(c.2);
            frame.push(255);
            px += 1;
        }
        assert(4 * (py * width + width) == 4 * ((py + 1) * width)) by (nonlinear_arith);
        py += 1;
    }
    assert(height * width == width * height) by (nonlinear_arith);
    assert(frame@ =~= rendered(discs@, width as int, height as int));
    frame
}

/// How many circles the instance buffer of a renderer has room for. It only
/// ever grows.
#[derive(Clone, Copy, Debug, PartialEq, Eq, Structural)]
pub struct Capacity {
    pub circles: usize,
}

impl Capacity {
    /// The capacity after room for `count` circles has been asked for.
    pub open spec fn grown(self, count: usize) -> Capacity {
        if count > self.circles {
            Capacity { circles: count }
        } else {
            self
        }
    }

    /// To have room for `count` circles the buffer must be made anew.
    pub open spec fn must_grow(self, count: usize) -> bool {
        count > self.circles
    }

    /// Makes room for `count` circles. Returns whether the caller has to make
    /// the buffer anew, which is so only where `count` is over the capacity.
    pub fn allocate(&mut self, count: usize) -> (anew: bool)
        ensures
            anew == old(self).must_grow(count),
            *final(self) == old(self).grown(count),
            final(self).circles >= old(self).circles,
            final(self).circles >= count,
    {
        if count > self.circles {
            self.circles = count;
            true
        } else {
            false
        }
    }
}

/// Once room for `max` circles has been made, no frame of at most `max`
/// circles makes the buffer anew, and the capacity stays as it is.
pub proof fn law_no_growth_within_capacity(start: Capacity, max: usize, count: usize)
    requires
        count <= max,
    ensures
        !start.grown(max).must_grow(count),
        start.grown(max).grown(count) == start.grown(max),
{
}

impl Simulation {
    /// The descriptors of the particles as they are now, in their order, each
    /// with the colour of its slot.
    pub fn snapshot(&self) -> (circles: Vec<Circle>)
        requires
            self.wf(),
        ensures
            circles@ == described(*self),
            forall|i: int|
                0 <= i < circles@.len() ==> (#[trigger] circles@[i]).color
                    == self.colors@[self.circles@[i].index as int],
    {
        let mut out: Vec<Circle> = Vec::new();
        let n = self.circles.len();
        let mut i: usize = 0;
        while i < n
            invariant
                i <= n,
                n == self.circles@.len(),
                out@.len() == i,
                forall|k: int| 0 <= k < i ==> #[trigger] out@[k] == described(*self)[k],
            decreases n - i,
        {
            let c = self.circles[i];
            out.push(Circle { position: c.position, radius: c.radius, color: c.color });
            i += 1;
        }
        assert(out@ =~= described(*self));
        out
    }
}

} // verus!
