//! The streaming state machine: a bounded run of generate-and-send
//! cycles.
//!
//! The steady state repeats one step forever: generate a burst of
//! frames, hand it to the transport in full.  A run ends `Stopped` after
//! the requested number of cycles — the external stop request of a
//! bounded test run — or `Faulted` the moment the transport reports a
//! fatal error.  Its theorem is the composition of the per-cycle
//! contracts: a run that stops has delivered, byte for byte, the single
//! uninterrupted waveform of all its cycles, with no seam at any buffer
//! boundary; a run that faults has delivered a prefix of it.

use vstd::prelude::*;

use crate::phase::{lemma_phase_compose, phase_after};
use crate::sine::{lemma_phase_continuity, sine_pcm, SendSinewave, DMA_BUFFERS, DMA_FRAMES};
use crate::transport::{Transport, TransportError};
use crate::triangle::{lemma_table_continuity, tri_pcm, SendTriangleWave};

verus! {

/// Where a bounded run of the streaming loop ended.
#[derive(Clone, Copy, Debug, PartialEq, Eq, Structural)]
pub enum StreamState {
    /// The run completed its cycle budget and stopped on request.
    Stopped,
    /// The transport reported a fatal error, carrying its code.
    Faulted(u32),
}

/// A `take` that ends inside the second part of a concatenation splits
/// into all of the first part and a `take` of the second.
proof fn lemma_take_of_concat<A>(a: Seq<A>, b: Seq<A>, k: int)
    requires
        0 <= k <= b.len(),
    ensures
        (a + b).take(a.len() + k) == a + b.take(k),
{
    assert((a + b).take(a.len() + k) =~= a + b.take(k));
}

/// Any stretch of a sine stream is the front of every longer stretch
/// from the same start: streams of the same generator nest.
proof fn lemma_sine_pcm_prefix(start: int, freq: int, rate: int, m: int, n: int, k: int)
    requires
        0 <= m <= n,
        0 <= k <= 4 * m,
    ensures
        sine_pcm(start, freq, rate, m).take(k) == sine_pcm(start, freq, rate, n).take(k),
{
    assert(sine_pcm(start, freq, rate, m).take(k) =~= sine_pcm(start, freq, rate, n).take(k));
}

/// The same nesting for triangle streams.
proof fn lemma_tri_pcm_prefix(start: int, l: int, m: int, n: int, k: int)
    requires
        0 <= m <= n,
        0 <= k <= 4 * m,
    ensures
        tri_pcm(start, l, m).take(k) == tri_pcm(start, l, n).take(k),
{
    assert(tri_pcm(start, l, m).take(k) =~= tri_pcm(start, l, n).take(k));
}

/// Run the sine streaming loop for `cycles` cycles of `n_buffers`
/// descriptors each.  A `Stopped` run has handed the transport exactly
/// the continuous waveform of all its cycles; a `Faulted` run, a prefix
/// of it.  Either way the generator's phase never left `[0, rate)`.
pub fn run_sine<T: Transport>(
    wave: &mut SendSinewave,
    driver: &mut T,
    n_buffers: usize,
    cycles: usize,
) -> (st: StreamState)
    requires
        old(wave).wf(),
        n_buffers <= DMA_BUFFERS,
    ensures
        final (wave).wf(),
        final (wave).wave.freq == old(wave).wave.freq,
        final (wave).wave.rate == old(wave).wave.rate,
        match st {
            StreamState::Stopped => final (wave).wave.pos as int == phase_after(
                old(wave).wave.pos as int,
                old(wave).wave.freq as int,
                old(wave).wave.rate as int,
                (cycles as int) * (n_buffers * DMA_FRAMES),
            ) && final (driver).received() == old(driver).received() + sine_pcm(
                old(wave).wave.pos as int,
                old(wave).wave.freq as int,
                old(wave).wave.rate as int,
                cycles * (n_buffers * DMA_FRAMES),
            ),
            StreamState::Faulted(_) => exists|k: int|
                0 <= k <= 4 * (cycles * (n_buffers * DMA_FRAMES)) && final (driver).received()
                    == old(driver).received() + #[trigger] sine_pcm(
                    old(wave).wave.pos as int,
                    old(wave).wave.freq as int,
                    old(wave).wave.rate as int,
                    cycles * (n_buffers * DMA_FRAMES),
                ).take(k),
        },
{
    let ghost pos0 = old(wave).wave.pos as int;
    let ghost f = old(wave).wave.freq as int;
    let ghost r = old(wave).wave.rate as int;
    let ghost frames = (n_buffers * DMA_FRAMES) as int;
    let ghost total = (cycles as int) * frames;
    proof {
        vstd::arithmetic::div_mod::lemma_small_mod(pos0 as nat, r as nat);
        assert(old(driver).received() + sine_pcm(pos0, f, r, 0) =~= old(driver).received());
    }
    let mut c: usize = 0;
    while c < cycles
        invariant
            wave.wf(),
            n_buffers <= DMA_BUFFERS,
            c <= cycles,
            pos0 == old(wave).wave.pos as int,
            f == wave.wave.freq as int,
            r == wave.wave.rate as int,
            wave.wave.freq == old(wave).wave.freq,
            wave.wave.rate == old(wave).wave.rate,
            frames == (n_buffers * DMA_FRAMES) as int,
            total == (cycles as int) * frames,
            wave.wave.pos as int == phase_after(pos0, f, r, (c as int) * frames),
            driver.received() == old(driver).received() + sine_pcm(
                pos0,
                f,
                r,
                (c as int) * frames,
            ),
        decreases cycles - c,
    {
        let ghost done = (c as int) * frames;
        let ghost prefix = sine_pcm(pos0, f, r, done);
        let ghost mid = phase_after(pos0, f, r, done);
        proof {
            vstd::arithmetic::mul::lemma_mul_nonnegative(c as int, frames);
            assert((c as int + 1) * frames == done + frames) by (nonlinear_arith)
                requires
                    done == (c as int) * frames,
            ;
            assert(done + frames <= total) by (nonlinear_arith)
                requires
                    (c as int) + 1 <= cycles as int,
                    done + frames == ((c as int) + 1) * frames,
                    total == (cycles as int) * frames,
                    0 <= frames,
            ;
        }
        match wave.send(driver, n_buffers) {
            Ok(_) => {
                proof {
                    lemma_phase_compose(pos0, f, r, done, frames);
                    lemma_phase_continuity(pos0, f, r, done, frames);
                    vstd::seq_lib::lemma_concat_associative(
                        old(driver).received(),
                        prefix,
                        sine_pcm(mid, f, r, frames),
                    );
                }
                c = c + 1;
            },
            Err(TransportError::Fault(code)) => {
                proof {
                    let k = choose|k: int|
                        0 <= k <= 4 * frames && driver.received() == (old(driver).received()
                            + prefix) + sine_pcm(mid, f, r, frames).take(k);
                    lemma_phase_continuity(pos0, f, r, done, frames);
                    lemma_take_of_concat(prefix, sine_pcm(mid, f, r, frames), k);
                    vstd::seq_lib::lemma_concat_associative(
                        old(driver).received(),
                        prefix,
                        sine_pcm(mid, f, r, frames).take(k),
                    );
                    lemma_sine_pcm_prefix(pos0, f, r, done + frames, total, 4 * done + k);
                    assert(driver.received() == old(driver).received() + sine_pcm(
                        pos0,
                        f,
                        r,
                        total,
                    ).take(4 * done + k));
                }
                return StreamState::Faulted(code);
            },
            Err(TransportError::Timeout) => {
                // `send` retries every timeout internally and never
                // surfaces one.
                proof {
                    assert(false);
                }
                return StreamState::Faulted(0);
            },
        }
    }
    StreamState::Stopped
}

/// Run the triangle streaming loop for `cycles` whole periods.  A
/// `Stopped` run has handed the transport exactly that many seamless
/// periods; a `Faulted` run, a prefix of them; and the cursor is back at
/// its start after every completed cycle.
pub fn run_triangle<T: Transport>(wave: &mut SendTriangleWave, driver: &mut T, cycles: usize) -> (st:
    StreamState)
    requires
        old(wave).wf(),
    ensures
        final (wave).wf(),
        final (wave).wave.table@ == old(wave).wave.table@,
        match st {
            StreamState::Stopped => final (wave).wave.cursor == old(wave).wave.cursor && final (
            driver).received() == old(driver).received() + tri_pcm(
                old(wave).wave.cursor as int,
                old(wave).wave.table@.len() as int,
                cycles * old(wave).wave.table@.len(),
            ),
            StreamState::Faulted(_) => exists|k: int|
                0 <= k <= 4 * (cycles * old(wave).wave.table@.len()) && final (driver).received()
                    == old(driver).received() + #[trigger] tri_pcm(
                    old(wave).wave.cursor as int,
                    old(wave).wave.table@.len() as int,
                    cycles * old(wave).wave.table@.len(),
                ).take(k),
        },
{
    let ghost c0 = old(wave).wave.cursor as int;
    let ghost l = old(wave).wave.table@.len() as int;
    let ghost total = (cycles as int) * l;
    proof {
        assert(old(driver).received() + tri_pcm(c0, l, 0) =~= old(driver).received());
    }
    let mut c: usize = 0;
    while c < cycles
        invariant
            wave.wf(),
            c <= cycles,
            c0 == old(wave).wave.cursor as int,
            l == wave.wave.table@.len() as int,
            wave.wave.table@ == old(wave).wave.table@,
            wave.wave.cursor == old(wave).wave.cursor,
            total == (cycles as int) * l,
            driver.received() == old(driver).received() + tri_pcm(c0, l, (c as int) * l),
        decreases cycles - c,
    {
        let ghost done = (c as int) * l;
        let ghost prefix = tri_pcm(c0, l, done);
        proof {
            vstd::arithmetic::mul::lemma_mul_nonnegative(c as int, l);
            assert((c as int + 1) * l == done + l) by (nonlinear_arith)
                requires
                    done == (c as int) * l,
            ;
            assert(done + l <= total) by (nonlinear_arith)
                requires
                    (c as int) + 1 <= cycles as int,
                    done + l == ((c as int) + 1) * l,
                    total == (cycles as int) * l,
                    0 <= l,
            ;
            // after `done` wrapped steps of one, the cursor is back at
            // its start, so every cycle reads the same period
            assert(phase_after(c0, 1, l, done) == c0) by {
                assert(c0 + done * 1 == l * (c as int) + c0) by (nonlinear_arith)
                    requires
                        done == (c as int) * l,
                ;
                vstd::arithmetic::div_mod::lemma_mod_multiples_vanish(c as int, c0, l);
                vstd::arithmetic::div_mod::lemma_small_mod(c0 as nat, l as nat);
            }
        }
        match wave.send(driver) {
            Ok(_) => {
                proof {
                    lemma_table_continuity(c0, l, done, l);
                    vstd::seq_lib::lemma_concat_associative(
                        old(driver).received(),
                        prefix,
                        tri_pcm(c0, l, l),
                    );
                }
                c = c + 1;
            },
            Err(TransportError::Fault(code)) => {
                proof {
                    let k = choose|k: int|
                        0 <= k <= 4 * l && driver.received() == (old(driver).received() + prefix)
                            + tri_pcm(c0, l, l).take(k);
                    lemma_table_continuity(c0, l, done, l);
                    lemma_take_of_concat(prefix, tri_pcm(c0, l, l), k);
                    vstd::seq_lib::lemma_concat_associative(
                        old(driver).received(),
                        prefix,
                        tri_pcm(c0, l, l).take(k),
                    );
                    lemma_tri_pcm_prefix(c0, l, done + l, total, 4 * done + k);
                    assert(driver.received() == old(driver).received() + tri_pcm(
                        c0,
                        l,
                        total,
                    ).take(4 * done + k));
                }
                return StreamState::Faulted(code);
            },
            Err(TransportError::Timeout) => {
                proof {
                    assert(false);
                }
                return StreamState::Faulted(0);
            },
        }
    }
    StreamState::Stopped
}

} // verus!
