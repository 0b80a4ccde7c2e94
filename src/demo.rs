//! State carried by the endless demo loop: the generator that places each
//! frame and the indicator LED that flips once per iteration.
use vstd::prelude::*;
use oorandom::Rand32;
use crate::placement::{
    Extent,
    Placement,
    contained,
    image_fits,
    valid_placement,
    pick_origin,
    pcg_after,
    pcg_draw,
    pcg_increment,
    pcg_seeded,
};

verus! {

/// The loop's state; one iteration is a decode attempt, one placement and
/// one LED toggle.
pub struct DemoLoop {
    pub rng: Rand32,
    pub display: Extent,
    pub image: Extent,
    pub led_on: bool,
    /// Iterations finished so far.
    pub iterations: Ghost<nat>,
}

/// The LED after `n` toggles starting from `led`.
pub open spec fn led_after(led: bool, n: nat) -> bool
    decreases n,
{
    if n == 0 {
        led
    } else {
        !led_after(led, (n - 1) as nat)
    }
}

impl DemoLoop {
    pub open spec fn wf(&self) -> bool {
        &&& image_fits(self.display, self.image)
        &&& pcg_increment(self.rng) % 2 == 1
        &&& self.led_on == led_after(false, self.iterations@)
    }

    /// Seeds the generator once; the LED starts off.
    pub fn new(seed: u64, display: Extent, image: Extent) -> (d: DemoLoop)
        requires
            image_fits(display, image),
        ensures
            d.wf(),
            d.display == display,
            d.image == image,
            !d.led_on,
            d.iterations@ == 0,
            d.rng == pcg_seeded(seed),
    {
        DemoLoop { rng: Rand32::new(seed), display, image, led_on: false, iterations: Ghost(0) }
    }

    /// Picks where this iteration's frame is drawn.
    pub fn place_frame(&mut self) -> (p: Placement)
        requires
            old(self).wf(),
        ensures
            final(self).wf(),
            final(self).display == old(self).display,
            final(self).image == old(self).image,
            final(self).led_on == old(self).led_on,
            final(self).iterations == old(self).iterations,
            valid_placement(p, old(self).display, old(self).image),
            contained(p, old(self).display, old(self).image),
            p.x == pcg_draw(old(self).rng, (old(self).display.width - old(self).image.width) as u32),
            p.y == pcg_draw(
                pcg_after(old(self).rng, (old(self).display.width - old(self).image.width) as u32),
                (old(self).display.height - old(self).image.height) as u32,
            ),
            final(self).rng == pcg_after(
                pcg_after(old(self).rng, (old(self).display.width - old(self).image.width) as u32),
                (old(self).display.height - old(self).image.height) as u32,
            ),
    {
        pick_origin(&mut self.rng, self.display, self.image)
    }

    /// Ends an iteration by flipping the LED; returns whether it is now on.
    pub fn finish_iteration(&mut self) -> (on: bool)
        requires
            old(self).wf(),
        ensures
            final(self).wf(),
            final(self).iterations@ == old(self).iterations@ + 1,
            final(self).led_on == !old(self).led_on,
            on == final(self).led_on,
            final(self).rng == old(self).rng,
            final(self).display == old(self).display,
            final(self).image == old(self).image,
    {
        self.led_on = !self.led_on;
        self.iterations = Ghost(self.iterations@ + 1);
        self.led_on
    }
}

proof fn lemma_led_after_parity(n: nat)
    ensures
        led_after(false, n) == (n % 2 == 1),
    decreases n,
{
    if n > 0 {
        lemma_led_after_parity((n - 1) as nat);
    }
}

/// The LED starts off and flips once per iteration, whatever the decode
/// attempts returned: after `n` iterations it is on exactly when `n` is odd.
pub proof fn lemma_led_parity(d: DemoLoop)
    requires
        d.wf(),
    ensures
        d.led_on == (d.iterations@ % 2 == 1),
{
    lemma_led_after_parity(d.iterations@);
}

} // verus!
