use vstd::prelude::*;
use vstd::std_specs::hash::DefaultHasherAdditionalSpecFns;
use std::collections::hash_map::DefaultHasher;
use std::hash::Hasher;
use crate::helper::Color;

verus! {

/// Seeds are taken below this number.
pub const SEED_RANGE: u64 = 1204;

/// A decoded picture: rows of pixels from the top, each pixel three bytes, red,
/// green and blue.
pub struct Picture {
    pub width: u32,
    pub height: u32,
    pub data: Vec<u8>,
}

/// A place in a picture: column `x` of row `y`.
#[derive(Clone, Copy, Debug, PartialEq, Eq, Structural)]
pub struct Pixel {
    pub x: u32,
    pub y: u32,
}

/// Where the pixel at column `x` of row `y` starts in the bytes of a picture
/// that is `width` wide.
pub open spec fn offset(width: u32, x: u32, y: u32) -> int {
    3 * (y * width + x)
}

/// A pixel inside a picture starts, and ends, inside the picture's bytes.
pub proof fn lemma_offset_fits(width: u32, height: u32, x: u32, y: u32)
    requires
        x < width,
        y < height,
    ensures
        0 <= y * width <= y * width + x < width * height,
        0 <= offset(width, x, y),
        offset(width, x, y) + 3 <= 3 * (width * height),
{
    assert(0 <= y * width && y * width + width <= height * width) by (nonlinear_arith)
        requires
            0 <= y < height,
            0 <= width,
    ;
    assert(height * width == width * height) by (nonlinear_arith);
}

/// What hashing a picture of this width, height and these bytes adds to a
/// hasher that has been fed `state`.
pub uninterp spec fn image_feed(state: Seq<Seq<u8>>, width: u32, height: u32, data: Seq<u8>) -> Seq<
    Seq<u8>,
>;

/// The seed of a picture of this width, height and these bytes.
pub open spec fn seed_of(width: u32, height: u32, data: Seq<u8>) -> int {
    DefaultHasher::spec_finish(image_feed(Seq::<Seq<u8>>::empty(), width, height, data)) as int
        % 1204
}

/// Feeds `state` the picture, by the `Hash` impl that `image` derives for
/// `image::ImageBuffer`, called on the `Rgb<u8>` buffer that
/// `image::ImageBuffer::from_raw` makes of the bytes. (A buffer over a slice
/// feeds a hasher what a buffer over a vector of the same bytes feeds it.)
///
/// Not proved, but taken from the source of `image`: that what the hasher is
/// fed depends on what it was fed before and on the width, the height and the
/// bytes, and on nothing else. `from_raw` gives a buffer whenever three times
/// the width, and that times the height, can be counted and the bytes are at
/// least as many: `requires` asks for both.
#[verifier::external_body]
fn feed_image(state: &mut DefaultHasher, width: u32, height: u32, data: &Vec<u8>)
    requires
        data@.len() == 3 * (width * height),
        3 * width <= usize::MAX,
    ensures
        final(state)@ == image_feed(old(state)@, width, height, data@),
{
    let buffer = image::ImageBuffer::<image::Rgb<u8>, &[u8]>::from_raw(
        width,
        height,
        data.as_slice(),
    );
    std::hash::Hash::hash(&buffer.unwrap(), state);
}

/// Reduces a digest to a seed.
pub fn reduce(digest: u64) -> (seed: usize)
    ensures
        seed == digest as int % 1204,
        seed < SEED_RANGE,
{
    (digest % SEED_RANGE) as usize
}

impl Picture {
    /// The bytes are exactly three for each pixel, and the bytes of one row are
    /// no more than a buffer can hold.
    pub open spec fn wf(&self) -> bool {
        self.data@.len() == 3 * (self.width * self.height) && 3 * self.width <= usize::MAX
    }

    /// The colour at column `x` of row `y`.
    pub open spec fn pixel(&self, x: u32, y: u32) -> Color {
        Color(
            self.data@[offset(self.width, x, y)],
            self.data@[offset(self.width, x, y) + 1],
            self.data@[offset(self.width, x, y) + 2],
        )
    }

    /// Every pixel has the colour `c`.
    pub open spec fn uniform(&self, c: Color) -> bool {
        forall|x: u32, y: u32| x < self.width && y < self.height ==> self.pixel(x, y) == c
    }

    /// Some pixel has the colour `c`.
    pub open spec fn shows(&self, c: Color) -> bool {
        exists|x: u32, y: u32| x < self.width && y < self.height && self.pixel(x, y) == c
    }

    /// A picture of these bytes, if they are exactly three for each pixel and
    /// the bytes of one row are no more than a buffer can hold.
    pub fn new(width: u32, height: u32, data: Vec<u8>) -> (picture: Option<Picture>)
        ensures
            picture.is_some() <==> data@.len() == 3 * (width * height) && 3 * width
                <= usize::MAX,
            picture matches Some(p) ==> p.wf() && p.width == width && p.height == height && p.data
                == data,
    {
        assert(0 <= width * height <= 0xffff_ffff * 0xffff_ffff) by (nonlinear_arith)
            requires
                0 <= width <= 0xffff_ffff,
                0 <= height <= 0xffff_ffff,
        ;
        let pixels = width as u64 * height as u64;
        let bytes = data.len() as u64;
        if pixels <= 0x5555_5555_5555_5555 && bytes == 3 * pixels && 3 * (width as u64)
            <= usize::MAX as u64 {
            Some(Picture { width, height, data })
        } else {
            None
        }
    }

    /// The colour at column `x` of row `y`.
    pub fn get_pixel(&self, x: u32, y: u32) -> (color: Color)
        requires
            self.wf(),
            x < self.width,
            y < self.height,
        ensures
            color == self.pixel(x, y),
    {
        let bytes = self.data.len();
        proof {
            lemma_offset_fits(self.width, self.height, x, y);
            assert(3 * (y * self.width + x) + 3 <= bytes);
        }
        let at: usize = 3 * (y as usize * self.width as usize + x as usize);
        Color(self.data[at], self.data[at + 1], self.data[at + 2])
    }

    /// The seed that this picture gives the simulation: a digest of its size
    /// and bytes, reduced below [`SEED_RANGE`].
    pub fn seed(&self) -> (seed: usize)
        requires
            self.wf(),
        ensures
            seed == seed_of(self.width, self.height, self.data@),
            seed < SEED_RANGE,
    {
        let mut hasher = DefaultHasher::new();
        feed_image(&mut hasher, self.width, self.height, &self.data);
        reduce(hasher.finish())
    }
}

} // verus!
