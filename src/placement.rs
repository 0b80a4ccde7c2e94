//! Random placement of the image inside the display.
use vstd::prelude::*;
use oorandom::Rand32;

verus! {

#[verifier::external_type_specification]
#[verifier::external_body]
pub struct ExRand32(Rand32);

/// The generator that `Rand32::new` builds from `seed`.
pub uninterp spec fn pcg_seeded(seed: u64) -> Rand32;

/// The offset below `span` that `Rand32::rand_range` draws from `rng`.
pub uninterp spec fn pcg_draw(rng: Rand32, span: u32) -> u32;

/// The generator after `Rand32::rand_range` drew below `span` from `rng`.
pub uninterp spec fn pcg_after(rng: Rand32, span: u32) -> Rand32;

/// The increment of `rng`, the second half of what `Rand32::state` reports.
pub uninterp spec fn pcg_increment(rng: Rand32) -> u64;

/// Relies on `oorandom::Rand32::new`: the generator is a function of the seed
/// alone (wrapping arithmetic on a fixed increment), and `new_inc` sets the
/// increment's lowest bit, so it is odd.
pub assume_specification[ Rand32::new ](seed: u64) -> (r: Rand32)
    ensures
        r == pcg_seeded(seed),
        pcg_increment(r) % 2 == 1,
;

/// Relies on `oorandom::Rand32::rand_range`: for a non-empty range it returns
/// a value at least `range.start` and below `range.end` (its result is
/// `(r * (end - start)) >> 32` plus `start`, for a 32-bit `r`); an empty
/// range panics, so it is excluded here. The draw and the next state depend
/// only on the generator and the width of the range: the method shifts the
/// range to start at zero and uses wrapping arithmetic alone. Its rejection
/// loop ends only when the generator reaches every state, which holds for an
/// odd increment; the increment itself is never changed.
#[verifier::external_body]
fn rand_below(rng: &mut Rand32, lo: u32, hi: u32) -> (r: u32)
    requires
        lo < hi,
        pcg_increment(*old(rng)) % 2 == 1,
    ensures
        pcg_increment(*final(rng)) == pcg_increment(*old(rng)),
        lo <= r < hi,
        r == lo + pcg_draw(*old(rng), (hi - lo) as u32),
        *final(rng) == pcg_after(*old(rng), (hi - lo) as u32),
{
    rng.rand_range(lo..hi)
}

/// Width and height of a rectangle, in pixels.
#[derive(Clone, Copy, Debug, PartialEq, Eq, Structural)]
pub struct Extent {
    pub width: u32,
    pub height: u32,
}

/// Top-left corner where the image is drawn on the display.
#[derive(Clone, Copy, Debug, PartialEq, Eq, Structural)]
pub struct Placement {
    pub x: u32,
    pub y: u32,
}

impl Extent {
    pub fn new(width: u32, height: u32) -> (r: Extent)
        ensures
            r.width == width,
            r.height == height,
    {
        Extent { width, height }
    }
}

/// The image fits strictly inside the display in both directions.
pub open spec fn image_fits(display: Extent, image: Extent) -> bool {
    image.width < display.width && image.height < display.height
}

/// An origin drawn from `[0, display - image)` on each axis.
pub open spec fn valid_placement(p: Placement, display: Extent, image: Extent) -> bool {
    &&& p.x < display.width - image.width
    &&& p.y < display.height - image.height
}

/// The image rectangle at `p` lies entirely within the display.
pub open spec fn contained(p: Placement, display: Extent, image: Extent) -> bool {
    &&& p.x + image.width <= display.width
    &&& p.y + image.height <= display.height
}

/// Draws a random origin, first `x` then `y`, each uniformly from
/// `[0, display - image)`. The generator must have an odd increment, as
/// every generator that `Rand32::new` builds has.
pub fn pick_origin(rng: &mut Rand32, display: Extent, image: Extent) -> (p: Placement)
    requires
        image_fits(display, image),
        pcg_increment(*old(rng)) % 2 == 1,
    ensures
        pcg_increment(*final(rng)) == pcg_increment(*old(rng)),
        valid_placement(p, display, image),
        contained(p, display, image),
        p.x == pcg_draw(*old(rng), (display.width - image.width) as u32),
        p.y == pcg_draw(
            pcg_after(*old(rng), (display.width - image.width) as u32),
            (display.height - image.height) as u32,
        ),
        *final(rng) == pcg_after(
            pcg_after(*old(rng), (display.width - image.width) as u32),
            (display.height - image.height) as u32,
        ),
{
    let x = rand_below(rng, 0, display.width - image.width);
    let y = rand_below(rng, 0, display.height - image.height);
    Placement { x, y }
}

} // verus!
