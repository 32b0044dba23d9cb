//! Picking a video id for a visitor who named none.

use rand::Rng;
use vstd::prelude::*;

verus! {

/// The smallest video id handed out at random.
pub const FIRST_RANDOM_VIDEO: u32 = 1;

/// One past the largest video id handed out at random.
pub const END_RANDOM_VIDEO: u32 = 1000000;

/// Relies on `rand::thread_rng` and `Rng::gen_range`: a value drawn from
/// `lo..hi`, which must not be empty.
#[verifier::external_body]
fn draw_in_range(lo: u32, hi: u32) -> (r: u32)
    requires
        lo < hi,
    ensures
        lo <= r < hi,
{
    rand::thread_rng().gen_range(lo..hi)
}

/// A video id drawn at random for a new game.
pub fn redirect_video_id() -> (r: u32)
    ensures
        FIRST_RANDOM_VIDEO <= r < END_RANDOM_VIDEO,
{
    draw_in_range(FIRST_RANDOM_VIDEO, END_RANDOM_VIDEO)
}

} // verus!
