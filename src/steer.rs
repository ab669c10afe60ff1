//! How an agent turns, given its three sensor readings and a random draw.

use rand::rngs::ThreadRng;
use vstd::prelude::*;

verus! {

/// rand's thread-local generator, held opaquely.
#[verifier::external_type_specification]
#[verifier::external_body]
pub struct ExThreadRng(ThreadRng);

/// Relies on rand::thread_rng: a handle to this thread's generator, seeded by
/// the system. Nothing is claimed of what it yields.
#[verifier::external_body]
pub(crate) fn thread_rng() -> ThreadRng {
    rand::thread_rng()
}

/// Relies on rand::Rng::gen_range on `0 .. bound`: the draw lies in that range,
/// and the call panics only when the range is empty.
#[verifier::external_body]
pub(crate) fn gen_below(rng: &mut ThreadRng, bound: u64) -> (r: u64)
    requires
        bound > 0,
    ensures
        r < bound,
{
    rand::Rng::gen_range(rng, 0..bound)
}

/// A random draw `d` stands for the fraction `d / DRAW_SCALE`, in `[0, 1)`.
pub const DRAW_SCALE: u64 = 9007199254740992;

/// Which way the heading moves: `Left` adds the turn angle, `Right` subtracts it.
#[derive(Clone, Copy, Debug, PartialEq, Eq, Structural)]
pub enum Turn {
    Straight,
    Left,
    Right,
}

/// A steering outcome: the turn, and the turn sign recorded for display
/// (`-1` for a deliberate left turn, `1` for a deliberate right turn, `0`
/// otherwise, including the random choice between two stronger sides).
#[derive(Clone, Copy, Debug, PartialEq, Eq, Structural)]
pub struct Decision {
    pub turn: Turn,
    pub sign: i8,
}

/// The steering rule. When the center reading is below both sides, the agent
/// turns left with probability `left / (left + right)`: left exactly when
/// `draw / DRAW_SCALE < left / (left + right)`. Readings are never negative,
/// so in that case `left > center >= 0` and the ratio is always defined.
pub open spec fn decision(left: u64, center: u64, right: u64, draw: u64) -> Decision {
    if center > left && center > right {
        Decision { turn: Turn::Straight, sign: 0i8 }
    } else if center < left && center < right {
        if (draw as int) * (left as int + right as int) < (left as int) * (DRAW_SCALE as int) {
            Decision { turn: Turn::Left, sign: 0i8 }
        } else {
            Decision { turn: Turn::Right, sign: 0i8 }
        }
    } else if left > right {
        Decision { turn: Turn::Left, sign: -1i8 }
    } else if right > left {
        Decision { turn: Turn::Right, sign: 1i8 }
    } else {
        Decision { turn: Turn::Straight, sign: 0i8 }
    }
}

/// Chooses the turn for sensor readings `left`, `center`, `right` and the
/// draw `draw / DRAW_SCALE`.
pub fn decide(left: u64, center: u64, right: u64, draw: u64) -> (d: Decision)
    requires
        draw < DRAW_SCALE,
    ensures
        d == decision(left, center, right, draw),
{
    if center > left && center > right {
        Decision { turn: Turn::Straight, sign: 0 }
    } else if center < left && center < right {
        let total: u128 = left as u128 + right as u128;
        assert((draw as int) * (total as int) <= (DRAW_SCALE as int) * (2 * u64::MAX as int))
            by (nonlinear_arith)
            requires
                draw < DRAW_SCALE,
                total <= 2 * u64::MAX as int,
        ;
        assert((left as int) * (DRAW_SCALE as int) <= (u64::MAX as int) * (DRAW_SCALE as int))
            by (nonlinear_arith)
            requires
                left <= u64::MAX,
        ;
        if (draw as u128) * total < (left as u128) * (DRAW_SCALE as u128) {
            Decision { turn: Turn::Left, sign: 0 }
        } else {
            Decision { turn: Turn::Right, sign: 0 }
        }
    } else if left > right {
        Decision { turn: Turn::Left, sign: -1 }
    } else if right > left {
        Decision { turn: Turn::Right, sign: 1 }
    } else {
        Decision { turn: Turn::Straight, sign: 0 }
    }
}

} // verus!
