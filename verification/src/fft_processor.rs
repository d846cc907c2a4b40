//! Block-based spectral analyzer state.
//!
//! Samples stream into a fixed-length circular buffer one at a time; a
//! block is complete exactly when the write cursor wraps back to zero.
//! The discrete transform itself is floating-point work done by the host
//! shell: the analyzer hands out the buffered samples in chronological
//! order and stores the fixed-point magnitudes the shell hands back,
//! so every piece of state bookkeeping here is verified.

use vstd::prelude::*;
use vstd::arithmetic::div_mod::{lemma_small_mod, lemma_mod_bound};
use crate::{MAG_MAX, MAX_FFT_SIZE};

verus! {

/// Spectral analyzer over a circular sample buffer.
///
/// Audio samples are carried as opaque 32-bit words (the host's 32-bit
/// float samples, bit for bit); the analyzer never interprets them, it
/// only buffers and reorders them. The last computed spectrum is held as
/// fixed-point magnitudes, one per frequency bin.
pub struct FFTProcessor {
    /// Analysis block length; fixed at construction.
    pub fft_size: usize,
    /// Sample rate in Hz, used only for the bin-to-frequency mapping.
    pub sample_rate: u32,
    /// Circular buffer of the most recent `fft_size` sample words.
    pub buffer: Vec<u32>,
    /// Write cursor: index of the slot the next sample lands in.
    pub buffer_position: usize,
    /// Whether a forward transform has been configured (the host plans
    /// the real transform when it learns the sample rate).
    pub configured: bool,
    /// Magnitudes of the last completed block, `fft_size / 2` bins.
    pub spectrum: Vec<u32>,
}

impl FFTProcessor {
    /// Well-formedness: buffer and spectrum have their fixed lengths, the
    /// cursor is in range, and every magnitude is within fixed-point range.
    pub open spec fn wf(self) -> bool {
        &&& 2 <= self.fft_size <= MAX_FFT_SIZE
        &&& self.fft_size % 2 == 0
        &&& self.buffer@.len() == self.fft_size
        &&& self.buffer_position < self.fft_size
        &&& self.spectrum@.len() == self.fft_size / 2
        &&& forall|i: int| 0 <= i < self.spectrum@.len() ==> self.spectrum@[i] <= MAG_MAX
    }

    /// Creates an analyzer with an all-zero buffer and spectrum, cursor at
    /// zero, a default 44100 Hz rate, and no transform configured yet.
    pub fn new(fft_size: usize) -> (r: Self)
        requires
            2 <= fft_size <= MAX_FFT_SIZE,
            fft_size % 2 == 0,
        ensures
            r.wf(),
            r.fft_size == fft_size,
            r.sample_rate == 44100,
            !r.configured,
            r.buffer_position == 0,
            r.buffer@ =~= Seq::new(fft_size as nat, |i: int| 0u32),
            r.spectrum@ =~= Seq::new((fft_size / 2) as nat, |i: int| 0u32),
    {
        let mut buffer: Vec<u32> = Vec::new();
        let mut i: usize = 0;
        while i < fft_size
            invariant
                i <= fft_size,
                buffer@ =~= Seq::new(i as nat, |j: int| 0u32),
            decreases fft_size - i,
        {
            buffer.push(0);
            i = i + 1;
        }
        let mut spectrum: Vec<u32> = Vec::new();
        let half: usize = fft_size / 2;
        let mut j: usize = 0;
        while j < half
            invariant
                j <= half,
                spectrum@ =~= Seq::new(j as nat, |k: int| 0u32),
            decreases half - j,
        {
            spectrum.push(0);
            j = j + 1;
        }
        FFTProcessor {
            fft_size,
            sample_rate: 44100,
            buffer,
            buffer_position: 0,
            configured: false,
            spectrum,
        }
    }

    /// Sets the sample rate, marks the transform as configured, and resets
    /// all buffered state. Must run before any sample is processed.
    pub fn initialize(&mut self, sample_rate: u32)
        requires
            old(self).wf(),
        ensures
            final(self).wf(),
            final(self).fft_size == old(self).fft_size,
            final(self).sample_rate == sample_rate,
            final(self).configured,
            final(self).buffer_position == 0,
            final(self).buffer@ =~= Seq::new(old(self).fft_size as nat, |i: int| 0u32),
            final(self).spectrum@ =~= Seq::new((old(self).fft_size / 2) as nat, |i: int| 0u32),
    {
        self.sample_rate = sample_rate;
        self.configured = true;
        self.reset();
    }

    /// Zeroes the sample buffer, rewinds the cursor, and zeroes the last
    /// spectrum; the block length, rate, and configuration are kept.
    pub fn reset(&mut self)
        requires
            old(self).wf(),
        ensures
            final(self).wf(),
            final(self).fft_size == old(self).fft_size,
            final(self).sample_rate == old(self).sample_rate,
            final(self).configured == old(self).configured,
            final(self).buffer_position == 0,
            final(self).buffer@ =~= Seq::new(old(self).fft_size as nat, |i: int| 0u32),
            final(self).spectrum@ =~= Seq::new((old(self).fft_size / 2) as nat, |i: int| 0u32),
    {
        let n = self.buffer.len();
        let mut i: usize = 0;
        while i < n
            invariant
                i <= n,
                self.buffer@.len() == n,
                forall|j: int| 0 <= j < i ==> self.buffer@[j] == 0u32,
                self.fft_size == old(self).fft_size,
                self.sample_rate == old(self).sample_rate,
                self.configured == old(self).configured,
                self.spectrum@ == old(self).spectrum@,
                self.buffer_position == old(self).buffer_position,
            decreases n - i,
        {
            self.buffer[i] = 0;
            i = i + 1;
        }
        self.buffer_position = 0;
        let half = self.spectrum.len();
        let mut j: usize = 0;
        while j < half
            invariant
                j <= half,
                self.spectrum@.len() == half,
                forall|k: int| 0 <= k < j ==> self.spectrum@[k] == 0u32,
                self.fft_size == old(self).fft_size,
                self.sample_rate == old(self).sample_rate,
                self.configured == old(self).configured,
                self.buffer@.len() == old(self).fft_size,
                forall|k: int| 0 <= k < self.buffer@.len() ==> self.buffer@[k] == 0u32,
                self.buffer_position == 0,
            decreases half - j,
        {
            self.spectrum[j] = 0;
            j = j + 1;
        }
    }

    /// Writes one sample word at the cursor and advances the cursor modulo
    /// the block length. Constant time, no allocation.
    pub fn process_sample(&mut self, sample: u32)
        requires
            old(self).wf(),
        ensures
            final(self).wf(),
            final(self).buffer@ == old(self).buffer@.update(old(self).buffer_position as int, sample),
            final(self).buffer_position == (old(self).buffer_position + 1) % old(self).fft_size as int,
            final(self).fft_size == old(self).fft_size,
            final(self).sample_rate == old(self).sample_rate,
            final(self).configured == old(self).configured,
            final(self).spectrum@ == old(self).spectrum@,
    {
        let pos = self.buffer_position;
        self.buffer[pos] = sample;
        self.buffer_position = (pos + 1) % self.fft_size;
    }

    /// True exactly when the cursor sits at zero, i.e. the last processed
    /// sample completed a block.
    pub fn is_frame_complete(&self) -> (r: bool)
        ensures
            r == (self.buffer_position == 0),
    {
        self.buffer_position == 0
    }

    /// True when a transform has been configured by `initialize`.
    pub fn is_configured(&self) -> (r: bool)
        ensures
            r == self.configured,
    {
        self.configured
    }

    /// Returns the buffered samples in chronological order: entry `i` of
    /// the result is the buffer slot `(cursor + i) mod fft_size`, undoing
    /// the circular wraparound so the host can window and transform the
    /// block in sample order.
    pub fn chronological_block(&self) -> (r: Vec<u32>)
        requires
            self.wf(),
        ensures
            r@.len() == self.fft_size,
            forall|i: int|
                0 <= i < self.fft_size ==> r@[i] == self.buffer@[
                    (self.buffer_position + i) % self.fft_size as int
                ],
    {
        let n = self.fft_size;
        let mut out: Vec<u32> = Vec::new();
        let mut i: usize = 0;
        while i < n
            invariant
                i <= n,
                self.wf(),
                n == self.fft_size,
                out@.len() == i,
                forall|j: int|
                    0 <= j < i ==> out@[j] == self.buffer@[
                        (self.buffer_position + j) % self.fft_size as int
                    ],
            decreases n - i,
        {
            let idx = (self.buffer_position + i) % n;
            proof {
                lemma_mod_bound((self.buffer_position + i) as int, n as int);
            }
            out.push(self.buffer[idx]);
            i = i + 1;
        }
        out
    }

    /// Stores the magnitudes of the block the host just transformed as the
    /// current spectrum. Only meaningful once configured, matching the
    /// pipeline convention that an unconfigured analyzer leaves the last
    /// spectrum untouched.
    pub fn store_spectrum(&mut self, magnitudes: Vec<u32>)
        requires
            old(self).wf(),
            old(self).configured,
            magnitudes@.len() == old(self).fft_size / 2,
            forall|i: int| 0 <= i < magnitudes@.len() ==> magnitudes@[i] <= MAG_MAX,
        ensures
            final(self).wf(),
            final(self).spectrum@ == magnitudes@,
            final(self).fft_size == old(self).fft_size,
            final(self).sample_rate == old(self).sample_rate,
            final(self).configured == old(self).configured,
            final(self).buffer@ == old(self).buffer@,
            final(self).buffer_position == old(self).buffer_position,
    {
        self.spectrum = magnitudes;
    }

    /// Returns a copy of the last computed spectrum (all zeros until a
    /// block has been stored); consumers never alias analyzer state.
    pub fn last_spectrum(&self) -> (r: Vec<u32>)
        ensures
            r@ == self.spectrum@,
    {
        self.spectrum.clone()
    }

    /// The exact frequency of `bin` is `bin * sample_rate / fft_size` Hz;
    /// to stay in integers this returns the numerator `bin * sample_rate`,
    /// i.e. the frequency in units of `1 / fft_size` Hz.
    pub open spec fn spec_frequency_numerator(self, bin: int) -> int {
        bin * self.sample_rate
    }

    /// Frequency of `bin` scaled by `fft_size`: the true frequency in Hz
    /// is the result divided by `fft_size` (an exact rational).
    pub fn get_frequency_for_bin(&self, bin: usize) -> (r: u64)
        requires
            self.wf(),
            bin <= self.fft_size,
        ensures
            r == self.spec_frequency_numerator(bin as int),
    {
        proof {
            assert((bin as int) * (self.sample_rate as int) <= MAX_FFT_SIZE * (u32::MAX as int))
                by (nonlinear_arith)
                requires
                    0 <= bin <= MAX_FFT_SIZE,
                    0 <= self.sample_rate <= u32::MAX,
            ;
        }
        (bin as u64) * (self.sample_rate as u64)
    }

    /// The bin-to-frequency mapping is linear in the bin with a zero
    /// intercept, and the half-block bin sits exactly at the Nyquist
    /// frequency: `frequency(fft_size / 2) == sample_rate / 2` as an exact
    /// rational (stated with both sides multiplied by `2 * fft_size`).
    pub proof fn lemma_frequency_linear(self, b1: int, b2: int)
        requires
            self.wf(),
        ensures
            self.spec_frequency_numerator(b1 + b2)
                == self.spec_frequency_numerator(b1) + self.spec_frequency_numerator(b2),
            self.spec_frequency_numerator(0) == 0,
            2 * self.spec_frequency_numerator(self.fft_size as int / 2)
                == self.sample_rate * self.fft_size,
    {
        assert((b1 + b2) * self.sample_rate == b1 * self.sample_rate + b2 * self.sample_rate)
            by (nonlinear_arith);
        assert(2 * ((self.fft_size / 2) * self.sample_rate as int)
            == self.sample_rate * self.fft_size)
            by (nonlinear_arith)
            requires
                self.fft_size % 2 == 0,
                self.fft_size >= 2,
        ;
    }

    /// Pushing samples one at a time from any cursor position, the cursor
    /// returns to zero exactly once within the next `fft_size` pushes: at
    /// push number `fft_size - start` (and so at push `fft_size` itself
    /// when starting from zero). With `process_sample` advancing the
    /// cursor by one modulo `fft_size`, the cursor after `k` pushes from
    /// `start` is `(start + k) % fft_size`.
    pub proof fn lemma_block_ready_exactly_once(n: int, start: int, k: int)
        requires
            0 < n,
            0 <= start < n,
            1 <= k <= n,
        ensures
            ((start + k) % n == 0) <==> (k == n - start),
    {
        if k == n - start {
            assert((start + k) % n == 0) by {
                assert(start + k == n);
                assert(n % n == 0) by (nonlinear_arith)
                    requires n > 0;
            }
        }
        if (start + k) % n == 0 {
            if start + k < n {
                lemma_small_mod((start + k) as nat, n as nat);
                assert(start + k == 0);
                assert(false);
            } else {
                assert(n <= start + k < 2 * n);
                assert((start + k) % n == start + k - n) by (nonlinear_arith)
                    requires n <= start + k < 2 * n, n > 0;
                assert(k == n - start);
            }
        }
    }

}

} // verus!
