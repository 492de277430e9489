//! The transport boundary and the streaming write loop.
//!
//! A transport accepts PCM bytes through a single bounded-wait `write`
//! call that may take fewer bytes than offered; a call that accepts
//! nothing within the bound reports a timeout.  The driver's job is the
//! partial-write loop: re-issue the unsent remainder until the whole
//! buffer has been accepted, retrying timeouts, so that the transport
//! receives every generated byte exactly once and in order.

use vstd::prelude::*;

verus! {

/// A failure reported by the transport's write call.
#[derive(Clone, Copy, Debug, PartialEq, Eq, Structural)]
pub enum TransportError {
    /// The bounded wait elapsed with zero bytes accepted.  Transient:
    /// the driver retries the same remainder.
    Timeout,
    /// Any other transport failure, carrying the device's error code.
    /// Fatal: the driver stops streaming and propagates it.
    Fault(u32),
}

/// A sink for PCM bytes with a bounded-wait, possibly partial write.
///
/// `received()` is the abstract log of every byte the transport has
/// accepted so far, in order; implementations say what it is.
pub trait Transport {
    spec fn received(&self) -> Seq<u8>;

    /// A bound on how many more consecutive timeouts the transport may
    /// still report before it accepts data or faults.  A live transport
    /// drains its queue at the configured rate, so it cannot time out
    /// forever: every timeout strictly lowers this measure, while a
    /// successful write may replenish it.
    spec fn timeouts_ahead(&self) -> nat;

    /// One bounded-wait write.  On success at least one byte was
    /// accepted, and exactly the accepted prefix of `bytes` was appended
    /// to the log; a timeout appends nothing; a fault may leave any
    /// prefix appended.
    fn write(&mut self, bytes: &[u8]) -> (r: Result<usize, TransportError>)
        requires
            bytes@.len() > 0,
        ensures
            match r {
                Ok(n) => 1 <= n <= bytes@.len() && final (self).received() == old(
                    self,
                ).received() + bytes@.take(n as int),
                Err(TransportError::Timeout) => final (self).received() == old(self).received()
                    && final (self).timeouts_ahead() < old(self).timeouts_ahead(),
                Err(TransportError::Fault(_)) => exists|k: int|
                    0 <= k <= bytes@.len() && final (self).received() == old(self).received()
                        + bytes@.take(k),
            },
    ;
}

/// Hand `bytes` to the transport in full: re-issue the unsent remainder
/// after every partial write, retry timeouts with the same remainder, and
/// stop only on a fault.  On success the transport's log has grown by
/// exactly `bytes`, in order; timeouts never surface to the caller; on a
/// fault the log has grown by some prefix of `bytes` and nothing else.
pub fn write_all<T: Transport>(driver: &mut T, bytes: &[u8]) -> (r: Result<
    usize,
    TransportError,
>)
    ensures
        match r {
            Ok(n) => n == bytes@.len() && final (driver).received() == old(driver).received()
                + bytes@,
            Err(TransportError::Timeout) => false,
            Err(TransportError::Fault(_)) => exists|k: int|
                0 <= k <= bytes@.len() && final (driver).received() == old(driver).received()
                    + bytes@.take(k),
        },
{
    let mut written: usize = 0;
    while written < bytes.len()
        invariant
            written <= bytes@.len(),
            driver.received() == old(driver).received() + bytes@.take(written as int),
        decreases bytes@.len() - written, driver.timeouts_ahead(),
    {
        let rest = vstd::slice::slice_subrange(bytes, written, bytes.len());
        match driver.write(rest) {
            Ok(n) => {
                proof {
                    assert(bytes@.take(written as int) + rest@.take(n as int) =~= bytes@.take(
                        written + n,
                    ));
                    assert(driver.received() == old(driver).received() + bytes@.take(
                        written + n,
                    )) by {
                        vstd::seq_lib::lemma_concat_associative(
                            old(driver).received(),
                            bytes@.take(written as int),
                            rest@.take(n as int),
                        );
                    }
                }
                written = written + n;
            },
            Err(TransportError::Timeout) => {
                // Transient: retry the same remainder, dropping nothing.
                // The transport's timeout measure bounds how often this
                // can repeat before data moves again.
            },
            Err(TransportError::Fault(code)) => {
                proof {
                    let k = choose|k: int|
                        0 <= k <= rest@.len() && driver.received() == (old(driver).received()
                            + bytes@.take(written as int)) + rest@.take(k);
                    assert(bytes@.take(written as int) + rest@.take(k) =~= bytes@.take(
                        written + k,
                    ));
                    vstd::seq_lib::lemma_concat_associative(
                        old(driver).received(),
                        bytes@.take(written as int),
                        rest@.take(k),
                    );
                    assert(driver.received() == old(driver).received() + bytes@.take(written + k));
                    assert(0 <= written + k <= bytes@.len());
                }
                return Err(TransportError::Fault(code));
            },
        }
    }
    proof {
        assert(bytes@.take(written as int) =~= bytes@);
    }
    Ok(written)
}

/// How many write calls a transport that accepts exactly `chunk` bytes
/// per successful call needs before `total` bytes have all been accepted.
pub open spec fn greedy_write_calls(total: nat, chunk: nat) -> nat
    decreases total,
{
    if chunk == 0 || total == 0 {
        0
    } else if total <= chunk {
        1
    } else {
        1 + greedy_write_calls((total - chunk) as nat, chunk)
    }
}

/// A transport that accepts at most `chunk` bytes per call drains a
/// buffer of `total > 0` bytes in exactly `ceil(total / chunk)` calls.
pub proof fn lemma_partial_write_count(total: nat, chunk: nat)
    requires
        0 < chunk,
    ensures
        greedy_write_calls(total, chunk) == (total + chunk - 1) / (chunk as int),
    decreases total,
{
    let c = chunk as int;
    if total == 0 {
        vstd::arithmetic::div_mod::lemma_basic_div(c - 1, c);
    } else if total <= chunk {
        assert((total + chunk - 1) / c == 1) by {
            vstd::arithmetic::div_mod::lemma_mod_self_0(c);
            vstd::arithmetic::div_mod::lemma_div_by_self(c);
            vstd::arithmetic::div_mod::lemma_indistinguishable_quotients(
                c,
                total + chunk - 1,
                c,
            );
        }
    } else {
        lemma_partial_write_count((total - chunk) as nat, chunk);
        assert(1 + (total - 1) / c == (total + chunk - 1) / c) by {
            vstd::arithmetic::div_mod::lemma_div_plus_one(total - 1, c);
        }
    }
}

/// A deterministic in-memory transport: it records every byte it
/// accepts, takes at most `max_accept` bytes per call, reports `Timeout`
/// for its first `timeouts_left` calls, and counts its write calls.
/// Streaming against it exercises the partial-write and retry paths of
/// the driver with nothing external involved.
pub struct ChunkTransport {
    /// Every byte accepted so far, in order.
    pub taken: Vec<u8>,
    /// Upper bound on bytes accepted per successful call.
    pub max_accept: usize,
    /// Remaining calls that will time out before any byte is accepted.
    pub timeouts_left: usize,
    /// Write calls observed (saturating).
    pub calls: usize,
}

impl ChunkTransport {
    /// A fresh transport that accepts at most `max_accept` bytes per call
    /// after first timing out `timeouts` times.
    pub fn new(max_accept: usize, timeouts: usize) -> (t: ChunkTransport)
        ensures
            t.received() == Seq::<u8>::empty(),
            t.max_accept == max_accept,
            t.timeouts_left == timeouts,
            t.calls == 0,
    {
        ChunkTransport { taken: Vec::new(), max_accept, timeouts_left: timeouts, calls: 0 }
    }
}

impl Transport for ChunkTransport {
    open spec fn received(&self) -> Seq<u8> {
        self.taken@
    }

    open spec fn timeouts_ahead(&self) -> nat {
        self.timeouts_left as nat
    }

    fn write(&mut self, bytes: &[u8]) -> (r: Result<usize, TransportError>)
        ensures
            final (self).max_accept == old(self).max_accept,
            old(self).calls < usize::MAX ==> final (self).calls == old(self).calls + 1,
            old(self).timeouts_left > 0 ==> r == Err::<usize, TransportError>(
                TransportError::Timeout,
            ) && final (self).timeouts_left == old(self).timeouts_left - 1,
            old(self).timeouts_left == 0 && old(self).max_accept == 0 ==> r == Err::<
                usize,
                TransportError,
            >(TransportError::Fault(0)),
            old(self).timeouts_left == 0 && old(self).max_accept > 0 ==> r == Ok::<
                usize,
                TransportError,
            >(
                if bytes@.len() <= old(self).max_accept {
                    bytes.len()
                } else {
                    old(self).max_accept
                },
            ),
    {
        if self.calls < usize::MAX {
            self.calls = self.calls + 1;
        }
        if self.timeouts_left > 0 {
            self.timeouts_left = self.timeouts_left - 1;
            return Err(TransportError::Timeout);
        }
        if self.max_accept == 0 {
            // A sink that can never take a byte is a broken device, not
            // a transient stall.
            proof {
                assert(self.taken@ =~= self.taken@ + bytes@.take(0));
            }
            return Err(TransportError::Fault(0));
        }
        let n = if bytes.len() <= self.max_accept {
            bytes.len()
        } else {
            self.max_accept
        };
        let ghost taken0 = self.taken@;
        let ghost calls1 = self.calls;
        let mut i: usize = 0;
        while i < n
            invariant
                i <= n,
                n <= bytes@.len(),
                self.taken@ == taken0 + bytes@.take(i as int),
                self.max_accept == old(self).max_accept,
                self.timeouts_left == 0,
                self.calls == calls1,
            decreases n - i,
        {
            let b = *vstd::slice::slice_index_get(bytes, i);
            self.taken.push(b);
            proof {
                assert(taken0 + bytes@.take(i + 1) =~= (taken0 + bytes@.take(i as int)).push(
                    bytes@[i as int],
                ));
            }
            i = i + 1;
        }
        Ok(n)
    }
}

} // verus!
