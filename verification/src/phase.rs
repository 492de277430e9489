//! The phase model shared by both waveform variants.
//!
//! A generator's position inside its period is an integer in `[0, modulus)`
//! that advances by a fixed step per sample and wraps modularly.  For the
//! sine variant the modulus is the sample rate and the step is the
//! frequency; for the triangle variant the modulus is the table length and
//! the step is one.  Keeping the position wrapped bounds the state for an
//! unbounded run and makes every sample a function of the starting
//! position alone.

use vstd::prelude::*;

verus! {

/// Position after `k` samples, starting from `start` and advancing by
/// `step` per sample, wrapped into `[0, modulus)`.
pub open spec fn phase_after(start: int, step: int, modulus: int, k: int) -> int {
    (start + k * step) % modulus
}

/// The wrapped position always stays inside `[0, modulus)`.
pub proof fn lemma_phase_in_range(start: int, step: int, modulus: int, k: int)
    requires
        0 < modulus,
    ensures
        0 <= phase_after(start, step, modulus, k) < modulus,
{
    vstd::arithmetic::div_mod::lemma_mod_division_less_than_divisor(start + k * step, modulus);
}

/// One more sample moves the wrapped position by one wrapped step.
pub proof fn lemma_phase_step(start: int, step: int, modulus: int, k: int)
    requires
        0 < modulus,
        0 <= step < modulus,
    ensures
        phase_after(start, step, modulus, k + 1) == (phase_after(start, step, modulus, k) + step)
            % modulus,
{
    let a = start + k * step;
    assert((a % modulus + step) % modulus == (a + step) % modulus) by {
        vstd::arithmetic::div_mod::lemma_add_mod_noop_right(step, a, modulus);
    }
    assert(a + step == start + (k + 1) * step) by {
        vstd::arithmetic::mul::lemma_mul_is_distributive_add_other_way(step, k, 1);
    }
}

/// Advancing by `a` samples and then by `b` more lands on the same wrapped
/// position as advancing by `a + b` at once: the phase state carries no
/// memory of how the run was cut into buffers.
pub proof fn lemma_phase_compose(start: int, step: int, modulus: int, a: int, b: int)
    requires
        0 < modulus,
    ensures
        phase_after(phase_after(start, step, modulus, a), step, modulus, b) == phase_after(
            start,
            step,
            modulus,
            a + b,
        ),
{
    let p = start + a * step;
    assert((p % modulus + b * step) % modulus == (p + b * step) % modulus) by {
        vstd::arithmetic::div_mod::lemma_add_mod_noop_right(b * step, p, modulus);
    }
    assert(p + b * step == start + (a + b) * step) by {
        vstd::arithmetic::mul::lemma_mul_is_distributive_add_other_way(step, a, b);
    }
}

/// A sum below twice the modulus wraps with at most one subtraction.
pub proof fn lemma_wrap_once(x: int, modulus: int)
    requires
        0 < modulus,
        0 <= x < 2 * modulus,
    ensures
        x % modulus == if x < modulus {
            x
        } else {
            x - modulus
        },
{
    if x < modulus {
        vstd::arithmetic::div_mod::lemma_small_mod(x as nat, modulus as nat);
    } else {
        vstd::arithmetic::div_mod::lemma_mod_multiples_vanish(1, x - modulus, modulus);
        vstd::arithmetic::div_mod::lemma_small_mod((x - modulus) as nat, modulus as nat);
    }
}

/// Advance a wrapped position by one step without leaving `[0, modulus)`
/// and without overflowing.
pub fn advance(pos: u32, step: u32, modulus: u32) -> (r: u32)
    requires
        pos < modulus,
        step < modulus,
    ensures
        r as int == (pos + step) % (modulus as int),
        r < modulus,
{
    proof {
        lemma_wrap_once(pos + step, modulus as int);
    }
    if pos >= modulus - step {
        pos - (modulus - step)
    } else {
        pos + step
    }
}

} // verus!
