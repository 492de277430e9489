//! The sine tone generator.
//!
//! A generator at frequency `f` and sample rate `r` holds a phase
//! position `pos` in `[0, r)`; sample `k` of a run started at `pos` is
//! taken at position `(pos + k * f) % r`, which is the angle
//! `2 * pi * pos / r` into one period.  The sample level itself is an
//! exact integer evaluation of a rational (Bhaskara I) approximation of
//! the sine of that angle, scaled to half of `i16::MAX`, so every sample
//! is a pure function of the wrapped position and the run is
//! deterministic, phase-continuous and free of rounding drift for an
//! unbounded lifetime.

use vstd::prelude::*;

use crate::config::{valid_config, ConfigError};
use crate::pcm::{frame_at_level, frame_byte, write_frame};
use crate::phase::{advance, lemma_phase_compose, lemma_phase_step, phase_after};
use crate::transport::{write_all, Transport, TransportError};

verus! {

/// Descriptors the transport queues at once.
pub const DMA_BUFFERS: usize = 12;

/// Frames per descriptor.
pub const DMA_FRAMES: usize = 240;

/// Peak sample level of the sine tone: half of `i16::MAX`.
pub const SINE_PEAK: i16 = 16383;

/// One half-wave of the approximated sine, for `0 <= d <= r`: the level
/// at angle `pi * d / r`, scaled so that the quarter-period value is
/// exactly `SINE_PEAK`.  This is Bhaskara's rational approximation
/// `16 u (1 - u) / (5 - 4 u (1 - u))` of `sin(pi * u)` at `u = d / r`,
/// cleared of fractions.
pub open spec fn sine_lobe(d: int, r: int) -> int {
    (16383 * 16 * (d * (r - d))) / (5 * (r * r) - 4 * (d * (r - d)))
}

/// The sample level at phase position `pos` of a period of `r` samples:
/// the first half-period is the positive lobe, the second its negation.
pub open spec fn sine_level(pos: int, r: int) -> int {
    if 2 * pos <= r {
        sine_lobe(2 * pos, r)
    } else {
        -sine_lobe(2 * pos - r, r)
    }
}

/// Compute one half-wave value exactly, in integer arithmetic.
fn half_lobe(d: u64, r: u64) -> (v: u16)
    requires
        0 < r <= 0xffff_ffff,
        d <= r,
    ensures
        v as int == sine_lobe(d as int, r as int),
        v <= 16383,
{
    let ghost di = d as int;
    let ghost ri = r as int;
    proof {
        vstd::arithmetic::mul::lemma_mul_nonnegative(di, ri - di);
        vstd::arithmetic::mul::lemma_mul_upper_bound(di, 0xffff_ffff, ri - di, 0xffff_ffff);
        vstd::arithmetic::mul::lemma_mul_upper_bound(ri, 0xffff_ffff, ri, 0xffff_ffff);
        assert(4 * (di * (ri - di)) <= ri * ri) by (nonlinear_arith)
            requires
                0 <= di <= ri,
        ;
        assert(1 <= ri * ri) by (nonlinear_arith)
            requires
                0 < ri,
        ;
    }
    let q: u128 = (d as u128) * ((r - d) as u128);
    proof {
        assert(q as int == di * (ri - di));
        assert(q as int <= 0xffff_ffff * 0xffff_ffff);
        assert(16383 * 16 * (q as int) <= 16383 * 16 * (0xffff_ffff * 0xffff_ffff))
            by (nonlinear_arith)
            requires
                0 <= q as int <= 0xffff_ffff * 0xffff_ffff,
        ;
    }
    let num: u128 = 16383 * 16 * q;
    let den: u128 = 5 * ((r as u128) * (r as u128)) - 4 * q;
    proof {
        assert(den as int == 5 * (ri * ri) - 4 * (di * (ri - di)));
        assert(num as int <= 16383 * (den as int)) by (nonlinear_arith)
            requires
                0 <= q as int,
                4 * (q as int) <= ri * ri,
                num as int == 16383 * 16 * (q as int),
                den as int == 5 * (ri * ri) - 4 * (q as int),
        ;
        vstd::arithmetic::div_mod::lemma_div_is_ordered(
            num as int,
            16383 * (den as int),
            den as int,
        );
        vstd::arithmetic::div_mod::lemma_div_multiples_vanish(16383, den as int);
        vstd::arithmetic::mul::lemma_mul_is_commutative(16383, den as int);
    }
    (num / den) as u16
}

/// The sample level at phase position `pos`, as a signed sample.
pub fn sine_sample(pos: u32, rate: u32) -> (s: i16)
    requires
        0 < rate,
        pos < rate,
    ensures
        s as int == sine_level(pos as int, rate as int),
        -16383 <= s as int <= 16383,
{
    let d2: u64 = 2 * (pos as u64);
    let r: u64 = rate as u64;
    if d2 <= r {
        let v = half_lobe(d2, r);
        v as i16
    } else {
        let v = half_lobe(d2 - r, r);
        -(v as i16)
    }
}

/// The byte stream of `frames` sine frames generated from phase position
/// `start`: frame `i` carries the level at position `i` steps past
/// `start`, low byte first, on both channels.
pub open spec fn sine_pcm(start: int, freq: int, rate: int, frames: int) -> Seq<u8> {
    Seq::new(
        (4 * frames) as nat,
        |j: int| frame_byte(sine_level(phase_after(start, freq, rate, j / 4), rate), j % 4) as u8,
    )
}

/// A buffer whose first `frames` frames carry the levels of a sine run
/// holds, byte for byte, the stream `sine_pcm` describes.
pub proof fn lemma_fill_is_pcm(b: Seq<u8>, start: int, freq: int, rate: int, frames: int)
    requires
        0 < rate,
        0 <= frames,
        4 * frames <= b.len(),
        forall|i: int|
            0 <= i < frames ==> frame_at_level(
                b,
                i,
                sine_level(phase_after(start, freq, rate, i), rate),
            ),
    ensures
        b.take(4 * frames) == sine_pcm(start, freq, rate, frames),
{
    let p = sine_pcm(start, freq, rate, frames);
    assert forall|j: int| 0 <= j < 4 * frames implies b.take(4 * frames)[j] == p[j] by {
        let i = j / 4;
        let o = j % 4;
        vstd::arithmetic::div_mod::lemma_fundamental_div_mod(j, 4);
        vstd::arithmetic::div_mod::lemma_mod_division_less_than_divisor(j, 4);
        vstd::arithmetic::div_mod::lemma_div_pos_is_pos(j, 4);
        vstd::arithmetic::div_mod::lemma_multiply_divide_lt(j, 4, frames);
        assert(frame_at_level(b, i, sine_level(phase_after(start, freq, rate, i), rate)));
        assert(b[4 * i + o] as int == frame_byte(
            sine_level(phase_after(start, freq, rate, i), rate),
            o,
        ));
    }
    assert(b.take(4 * frames) =~= p);
}

/// Phase continuity: the bytes of a run of `a` frames followed by a run
/// of `b` frames picked up at the resulting phase are exactly the bytes
/// of one run of `a + b` frames.  Cutting a stream into buffers leaves
/// no seam.
pub proof fn lemma_phase_continuity(start: int, freq: int, rate: int, a: int, b: int)
    requires
        0 < rate,
        0 <= a,
        0 <= b,
    ensures
        sine_pcm(start, freq, rate, a) + sine_pcm(
            phase_after(start, freq, rate, a),
            freq,
            rate,
            b,
        ) == sine_pcm(start, freq, rate, a + b),
{
    let mid = phase_after(start, freq, rate, a);
    let whole = sine_pcm(start, freq, rate, a + b);
    let first = sine_pcm(start, freq, rate, a);
    let second = sine_pcm(mid, freq, rate, b);
    assert forall|j: int| 0 <= j < 4 * (a + b) implies (first + second)[j] == whole[j] by {
        vstd::arithmetic::div_mod::lemma_mod_division_less_than_divisor(j, 4);
        vstd::arithmetic::div_mod::lemma_div_pos_is_pos(j, 4);
        if j < 4 * a {
            vstd::arithmetic::div_mod::lemma_multiply_divide_lt(j, 4, a);
        } else {
            let jj = j - 4 * a;
            vstd::arithmetic::div_mod::lemma_multiply_divide_lt(jj, 4, b);
            vstd::arithmetic::div_mod::lemma_div_pos_is_pos(jj, 4);
            vstd::arithmetic::div_mod::lemma_mod_division_less_than_divisor(jj, 4);
            assert(jj / 4 + a == (jj + a * 4) / 4) by {
                vstd::arithmetic::div_mod::lemma_hoist_over_denominator(jj, a, 4);
            }
            assert(j % 4 == jj % 4) by {
                vstd::arithmetic::div_mod::lemma_mod_multiples_vanish(a, jj, 4);
                assert(4 * a + jj == j);
            }
            lemma_phase_compose(start, freq, rate, a, jj / 4);
        }
    }
    assert(first + second =~= whole);
}

/// The sine waveform generator: an immutable frequency and sample rate,
/// and the wrapped phase position of the next sample.
#[derive(Debug)]
pub struct SineWave {
    pub freq: u32,
    pub rate: u32,
    pub pos: u32,
}

impl SineWave {
    /// The generator's configuration is playable and its phase position
    /// is inside one period.
    pub open spec fn wf(&self) -> bool {
        valid_config(self.freq as int, self.rate as int) && self.pos < self.rate
    }

    /// A generator at phase zero, or the error that says which bound the
    /// configuration broke.
    pub fn new(freq: u32, rate: u32) -> (r: Result<SineWave, ConfigError>)
        ensures
            r is Ok <==> valid_config(freq as int, rate as int),
            match r {
                Ok(w) => w.wf() && w.freq == freq && w.rate == rate && w.pos == 0,
                Err(ConfigError::FrequencyZero) => freq == 0,
                Err(ConfigError::FrequencyAboveNyquist) => freq > 0 && 2 * (freq as int)
                    >= rate as int,
            },
    {
        if freq == 0 {
            Err(ConfigError::FrequencyZero)
        } else if 2 * (freq as u64) >= rate as u64 {
            Err(ConfigError::FrequencyAboveNyquist)
        } else {
            Ok(SineWave { freq, rate, pos: 0 })
        }
    }

    /// Write the next `frames` frames into the front of `buf`, advancing
    /// the phase once per frame; bytes past the written region are left
    /// untouched, and the phase ends exactly `frames` wrapped steps past
    /// where it started.
    pub fn fill(&mut self, buf: &mut Vec<u8>, frames: usize)
        requires
            old(self).wf(),
            4 * frames <= old(buf).len(),
        ensures
            final (self).wf(),
            final (self).freq == old(self).freq,
            final (self).rate == old(self).rate,
            final (self).pos as int == phase_after(
                old(self).pos as int,
                old(self).freq as int,
                old(self).rate as int,
                frames as int,
            ),
            final (buf).len() == old(buf).len(),
            forall|i: int|
                0 <= i < frames as int ==> frame_at_level(
                    final (buf)@,
                    i,
                    sine_level(
                        phase_after(
                            old(self).pos as int,
                            old(self).freq as int,
                            old(self).rate as int,
                            i,
                        ),
                        old(self).rate as int,
                    ),
                ),
            forall|j: int|
                4 * (frames as int) <= j < old(buf)@.len() ==> final (buf)@[j] == old(buf)@[j],
    {
        let ghost pos0 = self.pos as int;
        let ghost f = self.freq as int;
        let ghost r = self.rate as int;
        proof {
            vstd::arithmetic::div_mod::lemma_small_mod(pos0 as nat, r as nat);
        }
        let mut i: usize = 0;
        while i < frames
            invariant
                i <= frames,
                self.freq == old(self).freq,
                self.rate == old(self).rate,
                self.wf(),
                pos0 == old(self).pos as int,
                f == old(self).freq as int,
                r == old(self).rate as int,
                self.pos as int == phase_after(pos0, f, r, i as int),
                buf.len() == old(buf).len(),
                4 * frames <= buf.len(),
                forall|k: int|
                    0 <= k < i as int ==> frame_at_level(
                        buf@,
                        k,
                        sine_level(phase_after(pos0, f, r, k), r),
                    ),
                forall|j: int|
                    4 * (frames as int) <= j < old(buf)@.len() ==> buf@[j] == old(buf)@[j],
            decreases frames - i,
        {
            let s = sine_sample(self.pos, self.rate);
            let ghost before = buf@;
            write_frame(buf, 4 * i, s);
            self.pos = advance(self.pos, self.freq, self.rate);
            proof {
                lemma_phase_step(pos0, f, r, i as int);
                assert forall|k: int|
                    0 <= k < i as int + 1 implies frame_at_level(
                    buf@,
                    k,
                    sine_level(phase_after(pos0, f, r, k), r),
                ) by {
                    if k < i as int {
                        assert(frame_at_level(before, k, sine_level(phase_after(pos0, f, r, k), r)));
                        assert(forall|j: int|
                            0 <= j < 4 ==> #[trigger] buf@[4 * k + j] == before[4 * k + j]);
                    }
                }
            }
            i = i + 1;
        }
    }
}

/// The sine stream driver: the generator plus the one reusable transfer
/// buffer, sized for a full burst of `DMA_BUFFERS` descriptors.
#[derive(Debug)]
pub struct SendSinewave {
    pub wave: SineWave,
    pub buffer: Vec<u8>,
}

impl SendSinewave {
    pub open spec fn wf(&self) -> bool {
        self.wave.wf() && self.buffer.len() == DMA_BUFFERS * DMA_FRAMES * 4
    }

    /// A driver around a fresh generator, or the configuration error.
    pub fn new(freq: u32, rate: u32) -> (r: Result<SendSinewave, ConfigError>)
        ensures
            r is Ok <==> valid_config(freq as int, rate as int),
            match r {
                Ok(s) => s.wf() && s.wave.freq == freq && s.wave.rate == rate && s.wave.pos == 0,
                Err(ConfigError::FrequencyZero) => freq == 0,
                Err(ConfigError::FrequencyAboveNyquist) => freq > 0 && 2 * (freq as int)
                    >= rate as int,
            },
    {
        match SineWave::new(freq, rate) {
            Ok(wave) => {
                let mut buffer: Vec<u8> = Vec::new();
                while buffer.len() < DMA_BUFFERS * DMA_FRAMES * 4
                    invariant
                        buffer.len() <= DMA_BUFFERS * DMA_FRAMES * 4,
                    decreases DMA_BUFFERS * DMA_FRAMES * 4 - buffer.len(),
                {
                    buffer.push(0);
                }
                Ok(SendSinewave { wave, buffer })
            },
            Err(e) => Err(e),
        }
    }

    /// Generate `n_buffers` descriptors' worth of frames, once, and hand
    /// them to the transport in full.  Whatever the transport answers,
    /// the generator advances exactly once for each generated frame; on
    /// success the transport's log has grown by exactly the generated
    /// byte stream, and on a fault by some prefix of it.
    pub fn send<T: Transport>(&mut self, driver: &mut T, n_buffers: usize) -> (r: Result<
        usize,
        TransportError,
    >)
        requires
            old(self).wf(),
            n_buffers <= DMA_BUFFERS,
        ensures
            final (self).wf(),
            final (self).wave.freq == old(self).wave.freq,
            final (self).wave.rate == old(self).wave.rate,
            final (self).wave.pos as int == phase_after(
                old(self).wave.pos as int,
                old(self).wave.freq as int,
                old(self).wave.rate as int,
                n_buffers * DMA_FRAMES,
            ),
            match r {
                Ok(n) => n == n_buffers * DMA_FRAMES * 4 && final (driver).received() == old(
                    driver,
                ).received() + sine_pcm(
                    old(self).wave.pos as int,
                    old(self).wave.freq as int,
                    old(self).wave.rate as int,
                    n_buffers * DMA_FRAMES,
                ),
                Err(TransportError::Timeout) => false,
                Err(TransportError::Fault(_)) => exists|k: int|
                    0 <= k <= n_buffers * DMA_FRAMES * 4 && final (driver).received() == old(
                        driver,
                    ).received() + #[trigger] sine_pcm(
                        old(self).wave.pos as int,
                        old(self).wave.freq as int,
                        old(self).wave.rate as int,
                        n_buffers * DMA_FRAMES,
                    ).take(k),
            },
    {
        let frames = n_buffers * DMA_FRAMES;
        self.wave.fill(&mut self.buffer, frames);
        proof {
            lemma_fill_is_pcm(
                self.buffer@,
                old(self).wave.pos as int,
                old(self).wave.freq as int,
                old(self).wave.rate as int,
                frames as int,
            );
        }
        let n = frames * 4;
        let data = vstd::slice::slice_subrange(self.buffer.as_slice(), 0, n);
        proof {
            assert(data@ =~= self.buffer@.take(n as int));
        }
        write_all(driver, data)
    }
}

} // verus!
