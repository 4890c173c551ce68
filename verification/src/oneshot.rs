//! One-shot sounds: a note or chord of a given duration, computed in full
//! by the host, is faded in and out here, ready to be loaded into the mixer
//! and played.

use crate::audio::SAMPLE_RATE;
use vstd::prelude::*;

verus! {

/// `a` divided by `d`, rounded towards zero.
pub open spec fn toward_zero(a: int, d: int) -> int {
    if a >= 0 {
        a / d
    } else {
        -((-a) / d)
    }
}

/// The number of frames that a sound of `duration_ms` milliseconds has.
pub open spec fn frames_of(duration_ms: int) -> int {
    duration_ms * SAMPLE_RATE / 1000
}

/// The number of frames over which a one-shot sound of `duration_ms`
/// milliseconds and `len` frames fades in, and out again: a tenth of its
/// duration, rounded, and no more than half its frames.
pub open spec fn ramp_frames(duration_ms: int, len: int) -> int {
    let tenth = (duration_ms * SAMPLE_RATE + 5000) / 10000;
    if tenth < len / 2 {
        tenth
    } else {
        len / 2
    }
}

/// Frame `n` of a one-shot sound after its fades: over the first `ramp`
/// frames the amplitude rises evenly from nothing, over the last `ramp`
/// frames it falls evenly, and between them the frame is untouched.
pub open spec fn faded(mono: Seq<i16>, ramp: int, n: int) -> int {
    if n < ramp {
        toward_zero(mono[n] * n, ramp)
    } else if n >= mono.len() - ramp {
        toward_zero(mono[n] * (mono.len() - n), ramp)
    } else {
        mono[n] as int
    }
}

/// The number of frames that a sound of `duration_ms` milliseconds has.
pub fn frames_for(duration_ms: u32) -> (frames: u64)
    ensures
        frames == frames_of(duration_ms as int),
{
    (duration_ms as u64) * (SAMPLE_RATE as u64) / 1000
}

/// One frame of a one-shot sound, faded by `part` parts of `ramp`.
fn fade_frame(sample: i16, part: usize, ramp: usize) -> (v: i16)
    requires
        0 <= part <= ramp,
        ramp > 0,
    ensures
        v == toward_zero(sample * part, ramp as int),
{
    let magnitude: u128 = if sample >= 0 { sample as u128 } else { (-(sample as i32)) as u128 };
    proof {
        assert(magnitude * part <= 32768 * ramp) by (nonlinear_arith)
            requires
                magnitude <= 32768,
                0 <= part <= ramp,
        ;
        assert(0 <= magnitude * part <= magnitude * ramp) by (nonlinear_arith)
            requires
                0 <= magnitude,
                0 <= part <= ramp,
        ;
    }
    let product: u128 = magnitude * (part as u128);
    let q: u128 = product / (ramp as u128);
    proof {
        vstd::arithmetic::div_mod::lemma_fundamental_div_mod(product as int, ramp as int);
        let q0 = product as int / ramp as int;
        let r0 = product as int % ramp as int;
        assert(q0 <= magnitude) by (nonlinear_arith)
            requires
                product == ramp * q0 + r0,
                0 <= r0,
                product <= magnitude * ramp,
                ramp > 0,
                part <= ramp,
                product == magnitude * part,
        ;
        if sample >= 0 {
            assert(sample * part == product);
            assert(q0 <= 32767);
        } else {
            assert((-(sample as int)) * part == product) by (nonlinear_arith)
                requires
                    magnitude == -(sample as int),
                    product == magnitude * part,
            ;
            assert(-((sample as int) * part) == (-(sample as int)) * part) by (nonlinear_arith);
            if part == 0 {
                assert((sample as int) * 0 == 0) by (nonlinear_arith);
            } else {
                assert((sample as int) * part < 0) by (nonlinear_arith)
                    requires
                        sample < 0,
                        part > 0,
                ;
            }
        }
    }
    if sample >= 0 {
        q as i16
    } else {
        (-(q as i32)) as i16
    }
}

/// The samples of a one-shot sound, ready to be loaded into the mixer,
/// which plays each on both channels: `mono` faded in over its beginning
/// and out over its end.
pub fn one_shot(mono: &Vec<i16>, duration_ms: u32) -> (shaped: Vec<i16>)
    ensures
        shaped@.len() == mono@.len(),
        forall|n: int|
            0 <= n < mono@.len() ==> #[trigger] shaped@[n] == faded(
                mono@,
                ramp_frames(duration_ms as int, mono@.len() as int),
                n,
            ),
{
    let len: usize = mono.len();
    let rate: u64 = SAMPLE_RATE as u64;
    assert(rate == 44100);
    let tenth: u64 = ((duration_ms as u64) * rate + 5000) / 10000;
    let half: usize = len / 2;
    let ramp: usize = if tenth < half as u64 { tenth as usize } else { half };
    let mut shaped: Vec<i16> = Vec::new();
    let mut n: usize = 0;
    while n < len
        invariant
            n <= len,
            len == mono@.len(),
            ramp == ramp_frames(duration_ms as int, len as int),
            0 <= ramp <= len / 2,
            shaped@.len() == n,
            forall|k: int| 0 <= k < n ==> #[trigger] shaped@[k] == faded(mono@, ramp as int, k),
        decreases len - n,
    {
        let sample: i16 = mono[n];
        let v: i16 = if n < ramp {
            fade_frame(sample, n, ramp)
        } else if n >= len - ramp {
            fade_frame(sample, len - n, ramp)
        } else {
            sample
        };
        shaped.push(v);
        n += 1;
    }
    shaped
}

} // verus!
