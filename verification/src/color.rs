//! Colour diffusion: one channel moved by a bounded, non-zero step.

use crate::random::draw_below;
use rand::rngs::StdRng;
use vstd::prelude::*;

verus! {

/// A channel value moved by `step` and held within `0..=255`.
pub open spec fn shifted(value: u8, step: int) -> u8 {
    if value + step < 0 {
        0u8
    } else if value + step > 255 {
        255u8
    } else {
        (value + step) as u8
    }
}

/// The step that a draw below `2 * delta` stands for: the lower half of the
/// draws gives `-delta..=-1`, the upper half `1..=delta`.
pub open spec fn step_of(draw: int, delta: int) -> int {
    if draw < delta {
        draw - delta
    } else {
        draw - delta + 1
    }
}

/// Whether `step` is one that a diffusion by `delta` may take: not zero and
/// at most `delta` in magnitude.
pub open spec fn is_step(step: int, delta: int) -> bool {
    step != 0 && -delta <= step <= delta
}

/// Whether `to` may follow `from` in one diffusion step bounded by `delta`.
pub open spec fn diffuses(from: u8, to: u8, delta: int) -> bool {
    exists|step: int| is_step(step, delta) && to == #[trigger] shifted(from, step)
}

/// Moves a channel by `step`, clamping at both ends.
pub fn offset_by(value: u8, step: i64) -> (out: u8)
    ensures
        out == shifted(value, step as int),
{
    if step < 0 - (value as i64) {
        0
    } else if step > 255 - (value as i64) {
        255
    } else {
        (value as i64 + step) as u8
    }
}

/// Turns a draw below `2 * delta` into a non-zero step of magnitude at most
/// `delta`. Each step comes from exactly one draw.
pub fn nonzero_step(draw: u64, delta: u32) -> (step: i64)
    requires
        draw < 2 * delta,
    ensures
        step == step_of(draw as int, delta as int),
        is_step(step as int, delta as int),
{
    if draw < delta as u64 {
        draw as i64 - delta as i64
    } else {
        draw as i64 - delta as i64 + 1
    }
}

/// Perturbs one channel: draws a non-zero step in `-delta..=delta`, every
/// such step being equally likely, adds it to `value` and clamps the sum.
pub fn offset(rng: &mut StdRng, value: u8, delta: u32) -> (out: u8)
    requires
        delta >= 1,
    ensures
        diffuses(value, out, delta as int),
        0 < value < 255 ==> out != value,
{
    let draw: u64 = draw_below(rng, 2 * (delta as u64));
    let step: i64 = nonzero_step(draw, delta);
    offset_by(value, step)
}

/// Every step has a draw: `step_of` reaches each non-zero step of magnitude
/// at most `delta`, and no other value.
pub proof fn lemma_step_of_covers(step: int, delta: int)
    requires
        is_step(step, delta),
    ensures
        exists|draw: int| 0 <= draw < 2 * delta && #[trigger] step_of(draw, delta) == step,
{
    let draw = if step < 0 { step + delta } else { step + delta - 1 };
    assert(step_of(draw, delta) == step);
}

/// A shifted channel differs from the channel it came from, unless the step
/// points outward at an end of the range: below zero from `0`, above `255`
/// from `255`.
pub proof fn lemma_shifted_moves(value: u8, step: int)
    requires
        step != 0,
        !(value == 0 && step < 0),
        !(value == 255 && step > 0),
    ensures
        shifted(value, step) != value,
{
}

/// A shifted channel is never further from its origin than the step is long.
pub proof fn lemma_shifted_near(value: u8, step: int, delta: int)
    requires
        is_step(step, delta),
    ensures
        value - delta <= shifted(value, step) <= value + delta,
{
}

} // verus!
