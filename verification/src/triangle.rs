//! The triangle tone generator.
//!
//! One period is precomputed into a table of `l` samples, where `l` is
//! the sample rate divided by the frequency, rounded to nearest.  The
//! table is a linear ramp from zero up to the positive peak, down
//! through zero to the negative peak, and back to zero, built by a
//! constant per-sample increment whose direction reverses by reflection
//! exactly at the peaks.  The ramp is kept in units scaled by the table
//! length, so the increment and both peaks are exact integers and the
//! table is an exact mirror of its closed form.  Playback is a circular
//! read of the table; no arithmetic happens per sample.

use vstd::prelude::*;

use crate::config::{valid_config, ConfigError};
use crate::pcm::{frame_at_level, frame_byte, write_frame};
use crate::phase::{lemma_phase_compose, lemma_phase_step, lemma_wrap_once, phase_after};
use crate::transport::{write_all, Transport, TransportError};

verus! {

/// Peak sample level of the triangle tone: `i16::MAX`.
pub const TRI_PEAK: i16 = 32767;

/// Scaled ramp increment per sample: four times the peak, so that one
/// period of `l` samples covers the full rise-fall-rise in units of
/// `1 / l`.
pub const TRI_STEP: i64 = 131068;

/// The triangle ramp in scaled units, folded into `[-peak, peak]`:
/// position `x` of a scaled period `[0, 4 * peak]` lies on the rising
/// ramp, the falling ramp, or the final rise back to zero.
pub open spec fn tri_fold(x: int, peak: int) -> int {
    if x <= peak {
        x
    } else if x <= 3 * peak {
        2 * peak - x
    } else {
        x - 4 * peak
    }
}

/// Whether the ramp is rising at scaled position `x`.
pub open spec fn tri_rising(x: int, peak: int) -> bool {
    x <= peak || x > 3 * peak
}

/// Division that rounds toward zero, matching the machine division the
/// table builder performs on a possibly negative scaled value.
pub open spec fn scale_div(x: int, l: int) -> int {
    if x >= 0 {
        x / l
    } else {
        -((-x) / l)
    }
}

/// The table length for a playable configuration: the sample rate over
/// the frequency, rounded to nearest.
pub open spec fn table_len_spec(freq: int, rate: int) -> int {
    (2 * rate + freq) / (2 * freq)
}

/// The level of table entry `i` in a table of length `l`: the scaled
/// ramp at position `i * TRI_STEP`, folded at the scaled peaks and
/// brought back to sample units.
pub open spec fn tri_level(i: int, l: int) -> int {
    scale_div(tri_fold(i * 131068, 32767 * l), l)
}

/// The fold stays within the scaled peaks.
pub proof fn lemma_tri_fold_bounds(x: int, peak: int)
    requires
        0 < peak,
        0 <= x <= 4 * peak,
    ensures
        -peak <= tri_fold(x, peak) <= peak,
{
}

/// One increment of the scaled ramp, reflected at a peak when it would
/// pass it, lands exactly on the fold of the next position, and the
/// reflection happens exactly when the ramp direction turns.
pub proof fn lemma_tri_step(x: int, peak: int)
    requires
        0 < peak,
        131068 <= 2 * peak,
        0 <= x,
        x + 131068 <= 4 * peak,
    ensures
        tri_rising(x, peak) ==> (if tri_fold(x, peak) + 131068 > peak {
            tri_fold(x + 131068, peak) == 2 * peak - (tri_fold(x, peak) + 131068) && !tri_rising(
                x + 131068,
                peak,
            )
        } else {
            tri_fold(x + 131068, peak) == tri_fold(x, peak) + 131068 && tri_rising(
                x + 131068,
                peak,
            )
        }),
        !tri_rising(x, peak) ==> (if tri_fold(x, peak) - 131068 < -peak {
            tri_fold(x + 131068, peak) == -2 * peak - (tri_fold(x, peak) - 131068) && tri_rising(
                x + 131068,
                peak,
            )
        } else {
            tri_fold(x + 131068, peak) == tri_fold(x, peak) - 131068 && !tri_rising(
                x + 131068,
                peak,
            )
        }),
{
}

/// The entry levels stay within the peak.
pub proof fn lemma_tri_level_bounds(i: int, l: int)
    requires
        2 <= l,
        0 <= i <= l,
    ensures
        -32767 <= tri_level(i, l) <= 32767,
{
    let peak = 32767 * l;
    assert(i * 131068 <= l * 131068) by (nonlinear_arith)
        requires
            0 <= i <= l,
    ;
    assert(0 <= i * 131068) by (nonlinear_arith)
        requires
            0 <= i,
    ;
    lemma_tri_fold_bounds(i * 131068, peak);
    let y = tri_fold(i * 131068, peak);
    vstd::arithmetic::div_mod::lemma_div_multiples_vanish(32767, l);
    vstd::arithmetic::mul::lemma_mul_is_commutative(32767, l);
    if y >= 0 {
        vstd::arithmetic::div_mod::lemma_div_is_ordered(y, peak, l);
        vstd::arithmetic::div_mod::lemma_div_pos_is_pos(y, l);
    } else {
        vstd::arithmetic::div_mod::lemma_div_is_ordered(-y, peak, l);
        vstd::arithmetic::div_mod::lemma_div_pos_is_pos(-y, l);
    }
}

/// Reflection symmetry of the table: entry `l - i` is the negation of
/// entry `i`, exactly, for every interior index.
pub proof fn lemma_tri_symmetry(i: int, l: int)
    requires
        2 <= l,
        1 <= i < l,
    ensures
        tri_level(l - i, l) == -tri_level(i, l),
{
    let peak = 32767 * l;
    let x = i * 131068;
    assert((l - i) * 131068 == 4 * (32767 * l) - i * 131068) by (nonlinear_arith);
    assert(0 < i * 131068 && i * 131068 < 4 * (32767 * l)) by (nonlinear_arith)
        requires
            1 <= i < l,
    ;
    assert(tri_fold(4 * peak - x, peak) == -tri_fold(x, peak));
}

/// The triangle waveform generator: one precomputed period and the
/// cursor of the next sample to play.
#[derive(Debug)]
pub struct TriangleWave {
    pub table: Vec<i16>,
    pub cursor: usize,
}

impl TriangleWave {
    /// The table is one exact period of the closed-form ramp and the
    /// cursor is inside it.
    pub open spec fn wf(&self) -> bool {
        &&& 2 <= self.table.len()
        &&& self.cursor < self.table.len()
        &&& forall|k: int|
            0 <= k < self.table@.len() ==> #[trigger] self.table@[k] as int == tri_level(
                k,
                self.table@.len() as int,
            )
    }

    /// Build the period table for a playable configuration, or report
    /// which bound the configuration broke.
    pub fn new(freq: u32, rate: u32) -> (r: Result<TriangleWave, ConfigError>)
        ensures
            r is Ok <==> valid_config(freq as int, rate as int),
            match r {
                Ok(w) => w.wf() && w.cursor == 0 && w.table@.len() as int == table_len_spec(
                    freq as int,
                    rate as int,
                ),
                Err(ConfigError::FrequencyZero) => freq == 0,
                Err(ConfigError::FrequencyAboveNyquist) => freq > 0 && 2 * (freq as int)
                    >= rate as int,
            },
    {
        if freq == 0 {
            return Err(ConfigError::FrequencyZero);
        }
        if 2 * (freq as u64) >= rate as u64 {
            return Err(ConfigError::FrequencyAboveNyquist);
        }
        let fi = freq as u64;
        let ri = rate as u64;
        let l64: u64 = (2 * ri + fi) / (2 * fi);
        proof {
            // l = round(rate / freq) is at least 2 below Nyquist and at
            // most the rate, so it fits the address space.
            assert(2 * ri + fi >= 2 * (2 * fi)) by {
                assert(ri >= 2 * fi + 1);
            }
            vstd::arithmetic::div_mod::lemma_div_is_ordered(
                2 * (2 * (fi as int)),
                2 * (ri as int) + fi as int,
                2 * (fi as int),
            );
            vstd::arithmetic::div_mod::lemma_div_multiples_vanish(2, 2 * (fi as int));
            vstd::arithmetic::mul::lemma_mul_is_commutative(2, 2 * (fi as int));
            assert(2 * (ri as int) + (fi as int) < (2 * (fi as int)) * (ri as int + 1))
                by (nonlinear_arith)
                requires
                    1 <= fi,
                    2 * fi < ri,
            ;
            vstd::arithmetic::div_mod::lemma_multiply_divide_lt(
                2 * (ri as int) + fi as int,
                2 * (fi as int),
                ri as int + 1,
            );
        }
        let l: usize = l64 as usize;
        let peak: i64 = 32767 * (l as i64);
        let mut table: Vec<i16> = Vec::new();
        let mut v: i64 = 0;
        let mut dstep: i64 = TRI_STEP;
        let mut k: usize = 0;
        let ghost li = l as int;
        while k < l
            invariant
                2 <= li <= 0xffff_ffff,
                li == l as int,
                peak == 32767 * li,
                k <= l,
                table@.len() == k,
                forall|t: int| 0 <= t < k as int ==> #[trigger] table@[t] as int == tri_level(t, li),
                v as int == tri_fold((k as int) * 131068, 32767 * li),
                dstep as int == if tri_rising((k as int) * 131068, 32767 * li) {
                    131068int
                } else {
                    -131068
                },
            decreases l - k,
        {
            proof {
                assert(0 <= (k as int) * 131068 && ((k as int) + 1) * 131068 <= li * 131068)
                    by (nonlinear_arith)
                    requires
                        0 <= (k as int) < li,
                ;
                lemma_tri_fold_bounds((k as int) * 131068, 32767 * li);
                lemma_tri_level_bounds(k as int, li);
                vstd::arithmetic::div_mod::lemma_div_multiples_vanish(32767, li);
                vstd::arithmetic::mul::lemma_mul_is_commutative(32767, li);
                if v >= 0 {
                    vstd::arithmetic::div_mod::lemma_div_is_ordered(v as int, peak as int, li);
                    vstd::arithmetic::div_mod::lemma_div_pos_is_pos(v as int, li);
                } else {
                    vstd::arithmetic::div_mod::lemma_div_is_ordered(-(v as int), peak as int, li);
                    vstd::arithmetic::div_mod::lemma_div_pos_is_pos(-(v as int), li);
                }
            }
            let val: i16 = if v >= 0 {
                ((v as u64) / (l as u64)) as i16
            } else {
                -((((-v) as u64) / (l as u64)) as i16)
            };
            table.push(val);
            proof {
                lemma_tri_step((k as int) * 131068, 32767 * li);
                assert(((k as int) + 1) * 131068 == (k as int) * 131068 + 131068) by (nonlinear_arith);
            }
            v = v + dstep;
            if v > peak {
                v = 2 * peak - v;
                dstep = -dstep;
            } else if v < -peak {
                v = -2 * peak - v;
                dstep = -dstep;
            }
            k = k + 1;
        }
        Ok(TriangleWave { table, cursor: 0 })
    }

    /// The length of the precomputed period.
    pub fn table_len(&self) -> (n: usize)
        ensures
            n == self.table@.len(),
    {
        self.table.len()
    }

    /// The table entry at `i`.
    pub fn sample_at(&self, i: usize) -> (s: i16)
        requires
            i < self.table@.len(),
        ensures
            s == self.table@[i as int],
    {
        self.table[i]
    }

    /// Write the next `frames` frames into the front of `buf`, reading
    /// the table circularly from the cursor; bytes past the written
    /// region are untouched, and the cursor ends exactly `frames`
    /// wrapped steps ahead.
    pub fn fill(&mut self, buf: &mut Vec<u8>, frames: usize)
        requires
            old(self).wf(),
            4 * frames <= old(buf).len(),
        ensures
            final (self).wf(),
            final (self).table@ == old(self).table@,
            final (self).cursor as int == phase_after(
                old(self).cursor as int,
                1,
                old(self).table@.len() as int,
                frames as int,
            ),
            final (buf).len() == old(buf).len(),
            forall|i: int|
                0 <= i < frames as int ==> frame_at_level(
                    final (buf)@,
                    i,
                    tri_level(
                        phase_after(
                            old(self).cursor as int,
                            1,
                            old(self).table@.len() as int,
                            i,
                        ),
                        old(self).table@.len() as int,
                    ),
                ),
            forall|j: int|
                4 * (frames as int) <= j < old(buf)@.len() ==> final (buf)@[j] == old(buf)@[j],
    {
        let ghost c0 = self.cursor as int;
        let ghost li = self.table@.len() as int;
        proof {
            vstd::arithmetic::div_mod::lemma_small_mod(c0 as nat, li as nat);
        }
        let l = self.table.len();
        let mut i: usize = 0;
        while i < frames
            invariant
                i <= frames,
                self.wf(),
                self.table@ == old(self).table@,
                c0 == old(self).cursor as int,
                li == self.table@.len() as int,
                l == self.table.len(),
                self.cursor as int == phase_after(c0, 1, li, i as int),
                buf.len() == old(buf).len(),
                4 * frames <= buf.len(),
                forall|k: int|
                    0 <= k < i as int ==> frame_at_level(
                        buf@,
                        k,
                        tri_level(phase_after(c0, 1, li, k), li),
                    ),
                forall|j: int|
                    4 * (frames as int) <= j < old(buf)@.len() ==> buf@[j] == old(buf)@[j],
            decreases frames - i,
        {
            let s = self.table[self.cursor];
            let ghost before = buf@;
            write_frame(buf, 4 * i, s);
            proof {
                lemma_phase_step(c0, 1, li, i as int);
                lemma_wrap_once(self.cursor as int + 1, li);
            }
            self.cursor = if self.cursor + 1 == l {
                0
            } else {
                self.cursor + 1
            };
            proof {
                assert forall|k: int|
                    0 <= k < i as int + 1 implies frame_at_level(
                    buf@,
                    k,
                    tri_level(phase_after(c0, 1, li, k), li),
                ) by {
                    if k < i as int {
                        assert(frame_at_level(before, k, tri_level(phase_after(c0, 1, li, k), li)));
                        assert(forall|j: int|
                            0 <= j < 4 ==> #[trigger] buf@[4 * k + j] == before[4 * k + j]);
                    }
                }
            }
            i = i + 1;
        }
    }
}

/// The byte stream of `frames` triangle frames read circularly from
/// entry `start` of a table of length `l`.
pub open spec fn tri_pcm(start: int, l: int, frames: int) -> Seq<u8> {
    Seq::new(
        (4 * frames) as nat,
        |j: int| frame_byte(tri_level(phase_after(start, 1, l, j / 4), l), j % 4) as u8,
    )
}

/// A buffer whose first `frames` frames carry the levels of a circular
/// table read holds, byte for byte, the stream `tri_pcm` describes.
pub proof fn lemma_tri_fill_is_pcm(b: Seq<u8>, start: int, l: int, frames: int)
    requires
        0 < l,
        0 <= frames,
        4 * frames <= b.len(),
        forall|i: int|
            0 <= i < frames ==> frame_at_level(b, i, tri_level(phase_after(start, 1, l, i), l)),
    ensures
        b.take(4 * frames) == tri_pcm(start, l, frames),
{
    let p = tri_pcm(start, l, frames);
    assert forall|j: int| 0 <= j < 4 * frames implies b.take(4 * frames)[j] == p[j] by {
        let i = j / 4;
        let o = j % 4;
        vstd::arithmetic::div_mod::lemma_fundamental_div_mod(j, 4);
        vstd::arithmetic::div_mod::lemma_mod_division_less_than_divisor(j, 4);
        vstd::arithmetic::div_mod::lemma_div_pos_is_pos(j, 4);
        vstd::arithmetic::div_mod::lemma_multiply_divide_lt(j, 4, frames);
        assert(frame_at_level(b, i, tri_level(phase_after(start, 1, l, i), l)));
        assert(b[4 * i + o] as int == frame_byte(tri_level(phase_after(start, 1, l, i), l), o));
    }
    assert(b.take(4 * frames) =~= p);
}

/// Phase continuity of circular playback: a read of `a` frames followed
/// by a read of `b` frames from the resulting cursor is byte-for-byte a
/// single read of `a + b` frames.
pub proof fn lemma_table_continuity(start: int, l: int, a: int, b: int)
    requires
        0 < l,
        0 <= a,
        0 <= b,
    ensures
        tri_pcm(start, l, a) + tri_pcm(phase_after(start, 1, l, a), l, b) == tri_pcm(
            start,
            l,
            a + b,
        ),
{
    let mid = phase_after(start, 1, l, a);
    let whole = tri_pcm(start, l, a + b);
    let first = tri_pcm(start, l, a);
    let second = tri_pcm(mid, l, b);
    assert forall|j: int| 0 <= j < 4 * (a + b) implies (first + second)[j] == whole[j] by {
        vstd::arithmetic::div_mod::lemma_mod_division_less_than_divisor(j, 4);
        vstd::arithmetic::div_mod::lemma_div_pos_is_pos(j, 4);
        if j < 4 * a {
            vstd::arithmetic::div_mod::lemma_multiply_divide_lt(j, 4, a);
        } else {
            let jj = j - 4 * a;
            vstd::arithmetic::div_mod::lemma_multiply_divide_lt(jj, 4, b);
            vstd::arithmetic::div_mod::lemma_div_pos_is_pos(jj, 4);
            vstd::arithmetic::div_mod::lemma_mod_division_less_than_divisor(jj, 4);
            assert(jj / 4 + a == (jj + a * 4) / 4) by {
                vstd::arithmetic::div_mod::lemma_hoist_over_denominator(jj, a, 4);
            }
            assert(j % 4 == jj % 4) by {
                vstd::arithmetic::div_mod::lemma_mod_multiples_vanish(a, jj, 4);
                assert(4 * a + jj == j);
            }
            lemma_phase_compose(start, 1, l, a, jj / 4);
        }
    }
    assert(first + second =~= whole);
}

/// The triangle stream driver: the generator plus the one reusable
/// transfer buffer, sized for exactly one period.
#[derive(Debug)]
pub struct SendTriangleWave {
    pub wave: TriangleWave,
    pub buffer: Vec<u8>,
}

impl SendTriangleWave {
    pub open spec fn wf(&self) -> bool {
        self.wave.wf() && self.buffer.len() == 4 * self.wave.table@.len()
    }

    /// A driver around a fresh generator, or the configuration error.
    pub fn new(freq: u32, rate: u32) -> (r: Result<SendTriangleWave, ConfigError>)
        requires
            4 * table_len_spec(freq as int, rate as int) <= usize::MAX,
        ensures
            r is Ok <==> valid_config(freq as int, rate as int),
            match r {
                Ok(s) => s.wf() && s.wave.cursor == 0 && s.wave.table@.len() as int
                    == table_len_spec(freq as int, rate as int),
                Err(ConfigError::FrequencyZero) => freq == 0,
                Err(ConfigError::FrequencyAboveNyquist) => freq > 0 && 2 * (freq as int)
                    >= rate as int,
            },
    {
        match TriangleWave::new(freq, rate) {
            Ok(wave) => {
                let n = 4 * wave.table.len();
                let mut buffer: Vec<u8> = Vec::new();
                while buffer.len() < n
                    invariant
                        buffer.len() <= n,
                    decreases n - buffer.len(),
                {
                    buffer.push(0);
                }
                Ok(SendTriangleWave { wave, buffer })
            },
            Err(e) => Err(e),
        }
    }

    /// Generate one full period from the cursor, once, and hand it to
    /// the transport in full.  Whatever the transport answers, the
    /// cursor comes back to where it started; on success the transport's
    /// log has grown by exactly the period's byte stream, and on a fault
    /// by some prefix of it.
    pub fn send<T: Transport>(&mut self, driver: &mut T) -> (r: Result<usize, TransportError>)
        requires
            old(self).wf(),
        ensures
            final (self).wf(),
            final (self).wave.table@ == old(self).wave.table@,
            final (self).wave.cursor == old(self).wave.cursor,
            match r {
                Ok(n) => n == 4 * old(self).wave.table@.len() && final (driver).received() == old(
                    driver,
                ).received() + tri_pcm(
                    old(self).wave.cursor as int,
                    old(self).wave.table@.len() as int,
                    old(self).wave.table@.len() as int,
                ),
                Err(TransportError::Timeout) => false,
                Err(TransportError::Fault(_)) => exists|k: int|
                    0 <= k <= 4 * old(self).wave.table@.len() && final (driver).received() == old(
                        driver,
                    ).received() + #[trigger] tri_pcm(
                        old(self).wave.cursor as int,
                        old(self).wave.table@.len() as int,
                        old(self).wave.table@.len() as int,
                    ).take(k),
            },
    {
        let frames = self.wave.table.len();
        self.wave.fill(&mut self.buffer, frames);
        proof {
            let li = old(self).wave.table@.len() as int;
            let c0 = old(self).wave.cursor as int;
            lemma_tri_fill_is_pcm(self.buffer@, c0, li, li);
            // A whole period brings the cursor back to its start.
            assert((c0 + li * 1) % li == c0) by {
                vstd::arithmetic::div_mod::lemma_mod_multiples_vanish(1, c0, li);
                vstd::arithmetic::div_mod::lemma_small_mod(c0 as nat, li as nat);
            }
        }
        let n = frames * 4;
        let data = vstd::slice::slice_subrange(self.buffer.as_slice(), 0, n);
        proof {
            assert(data@ =~= self.buffer@.take(n as int));
        }
        write_all(driver, data)
    }
}

} // verus!
