//! A destructible 2D terrain core: an 8x8 bit-packed chunk unit, a
//! chunk-addressed land grid over a fixed-width linear store, circular
//! carving and filling, deterministic column generation, draw-command
//! rendering, and a packed header for persistence.

pub mod hud;
pub mod land;
pub mod store;

use crate::hud::Notifier;
use crate::land::{Land, lemma_save_preserves_pixels};
use crate::store::LandStore;
use vstd::prelude::*;

verus! {

/// Frames a banner message stays on screen: five seconds at 60 frames.
pub const NOTIFY_TIME: i32 = 5 * 60;

/// Show a banner message for the standard duration.
pub fn notify(notifier: &mut Notifier, msg: &str)
    ensures
        final(notifier).msg@ == msg@,
        final(notifier).timer == NOTIFY_TIME,
        final(notifier).timer_start == NOTIFY_TIME,
{
    notifier.notify(msg, NOTIFY_TIME);
}

/// Session start. A land whose seed is still zero has never been
/// generated: it takes the timestamp as its seed, generates from the
/// supplied height profile, persists its header, and announces itself as
/// generated. A land with a seed was loaded from a save and is only
/// announced.
pub fn boot(
    land: &mut Land,
    store: &mut LandStore,
    notifier: &mut Notifier,
    now: u32,
    heights: &Vec<i32>,
)
    requires
        old(land).wf(),
        old(store).wf(),
        heights@.len() == old(land).pixel_width(),
    ensures
        final(land).wf(),
        final(store).wf(),
        final(store)@.len() == old(store)@.len(),
        final(notifier).timer == NOTIFY_TIME,
        final(notifier).timer_start == NOTIFY_TIME,
        old(land).seed == 0 ==> {
            &&& *final(land) == (Land { seed: now, ..*old(land) })
            &&& final(notifier).msg@ == "Land generated"@
            &&& forall|px: int, py: int|
                final(land).in_bounds_spec(px, py) ==> final(land).pixel(final(store)@, px, py)
                    == final(land).gen_pixel(heights@, px, py)
            &&& forall|a: int|
                0 <= a < 9 ==> final(store)@[a] == final(land).save_spec(old(store)@)[a]
        },
        old(land).seed != 0 ==> {
            &&& *final(land) == *old(land)
            &&& final(store)@ == old(store)@
            &&& final(notifier).msg@ == "Land loaded"@
        },
{
    if land.seed() == 0 {
        land.set_seed(now);
        land.generate(store, heights);
        let ghost s_gen = store@;
        land.save_in_map(store);
        proof {
            lemma_save_preserves_pixels(*land, s_gen);
        }
        notify(notifier, "Land generated");
    } else {
        notify(notifier, "Land loaded");
    }
}

} // verus!
