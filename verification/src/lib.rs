//! Real-time guitar-to-MIDI tracking core.
//!
//! A block-based spectral analyzer feeds a template-matching note
//! classifier; detected note sets are diffed against the previous block
//! to emit edge-triggered note-on / note-off events.
//!
//! All numeric state is held as plain integers: audio samples are carried
//! as opaque 32-bit words, spectrum magnitudes and similarity scores are
//! fixed-point integers. The host-side shell converts its floating-point
//! samples and transform output into these representations at the boundary.

use vstd::prelude::*;
use vstd::arithmetic::div_mod::{
    lemma_add_mod_noop, lemma_add_mod_noop_right, lemma_mod_bound, lemma_small_mod,
};

pub mod codec;
pub mod fft_processor;
pub mod learning;
pub mod midi_output;
pub mod note_detection;
pub mod similarity;
pub mod template_store;
pub mod utils;

use crate::fft_processor::FFTProcessor;
use crate::midi_output::{output_midi_notes, spec_output_events, NoteEvent};
use crate::note_detection::{spec_detect_notes, NoteDetector};
use crate::similarity::bounded_spectrum;

verus! {

/// Scale of fixed-point similarity scores and sensitivity values:
/// a score of `SIM_SCALE` stands for a cosine similarity of exactly 1.
pub const SIM_SCALE: u64 = 1_000_000;

/// Largest admissible fixed-point spectrum magnitude (keeps every dot
/// product and norm product within `u128` range).
pub const MAG_MAX: u32 = 1_048_575;

/// Largest admissible analysis block length.
pub const MAX_FFT_SIZE: usize = 131_072;

/// Largest admissible spectrum length (half the largest block).
pub const MAX_SPECTRUM_LEN: usize = 65_536;

/// Default analysis block length (trade-off between frequency resolution
/// and detection latency).
pub const DEFAULT_FFT_SIZE: usize = 4096;

/// The buffer and cursor a sample-word sequence leaves behind when pushed
/// into a circular buffer one word at a time.
pub open spec fn spec_push_all(buf: Seq<u32>, pos: int, samples: Seq<u32>) -> (Seq<u32>, int)
    decreases samples.len(),
{
    if samples.len() == 0 {
        (buf, pos)
    } else {
        spec_push_all(
            buf.update(pos, samples[0]),
            (pos + 1) % buf.len() as int,
            samples.drop_first(),
        )
    }
}

/// Pushing a sequence of sample words advances the cursor by the
/// sequence's length, modulo the block length: together with
/// `FFTProcessor::lemma_block_ready_exactly_once` this pins down that a
/// full block of pushes completes a frame exactly once, at the push that
/// wraps the cursor to zero.
pub proof fn lemma_push_all_position(buf: Seq<u32>, pos: int, samples: Seq<u32>)
    requires
        buf.len() > 0,
        0 <= pos < buf.len(),
    ensures
        spec_push_all(buf, pos, samples).1 == (pos + samples.len()) % buf.len() as int,
        spec_push_all(buf, pos, samples).0.len() == buf.len(),
    decreases samples.len(),
{
    let n = buf.len() as int;
    if samples.len() == 0 {
        lemma_small_mod(pos as nat, buf.len());
    } else {
        let buf1 = buf.update(pos, samples[0]);
        let pos1 = (pos + 1) % n;
        lemma_mod_bound(pos + 1, n);
        lemma_push_all_position(buf1, pos1, samples.drop_first());
        let k = samples.len() - 1;
        lemma_add_mod_noop_right((pos + 1) % n, k, n);
        lemma_add_mod_noop(pos + 1, k, n);
        lemma_add_mod_noop_right(pos + 1, k, n);
        assert(((pos + 1) % n + k % n) % n == (pos + 1 + k) % n);
        assert(((pos + 1) % n + k) % n == (pos + 1 + k) % n);
    }
}

/// The tracking core: analyzer, template store and the previous block's
/// detected note set, advanced one block at a time. The host shell feeds
/// sample words, runs the floating-point transform when a block
/// completes, and hands the magnitudes back together with the block's
/// mode and parameters.
pub struct GuitarMidiTracker {
    /// Sample rate in Hz, set at initialization.
    pub sample_rate: u32,
    /// The spectral analyzer and its circular sample buffer.
    pub fft_processor: FFTProcessor,
    /// Learned templates and the classifier around them.
    pub note_detector: NoteDetector,
    /// The notes detected for the previous block: exactly the classifier's
    /// last tracking-mode output, never touched while learning.
    pub detected_notes: Vec<u8>,
}

impl GuitarMidiTracker {
    /// Well-formedness of the whole core.
    pub open spec fn wf(self) -> bool {
        &&& self.fft_processor.wf()
        &&& self.note_detector.wf()
    }

    /// Initializes both the analyzer and the detector for the host's
    /// sample rate; buffered samples and the last spectrum are cleared,
    /// learned templates are kept.
    pub fn initialize(&mut self, sample_rate: u32)
        requires
            old(self).wf(),
        ensures
            final(self).wf(),
            final(self).sample_rate == sample_rate,
            final(self).fft_processor.configured,
            final(self).fft_processor.fft_size == old(self).fft_processor.fft_size,
            final(self).fft_processor.buffer_position == 0,
            final(self).note_detector.learned_notes == old(self).note_detector.learned_notes,
            final(self).detected_notes@ == old(self).detected_notes@,
    {
        self.sample_rate = sample_rate;
        self.fft_processor.initialize(sample_rate);
        self.note_detector.initialize(sample_rate);
    }

    /// Handles a transport discontinuity: clears the analyzer's buffered
    /// samples and spectrum; templates and the rate persist.
    pub fn reset(&mut self)
        requires
            old(self).wf(),
        ensures
            final(self).wf(),
            final(self).sample_rate == old(self).sample_rate,
            final(self).fft_processor.fft_size == old(self).fft_processor.fft_size,
            final(self).fft_processor.configured == old(self).fft_processor.configured,
            final(self).fft_processor.buffer_position == 0,
            final(self).note_detector == old(self).note_detector,
            final(self).detected_notes@ == old(self).detected_notes@,
    {
        self.fft_processor.reset();
        self.note_detector.reset();
    }

    /// Streams one chunk of sample words into the analyzer, in order; the
    /// chunk size is the host's choice and independent of the block size.
    pub fn process_samples(&mut self, samples: &Vec<u32>)
        requires
            old(self).wf(),
        ensures
            final(self).wf(),
            (final(self).fft_processor.buffer@, final(self).fft_processor.buffer_position as int)
                == spec_push_all(
                old(self).fft_processor.buffer@,
                old(self).fft_processor.buffer_position as int,
                samples@,
            ),
            final(self).fft_processor.fft_size == old(self).fft_processor.fft_size,
            final(self).fft_processor.sample_rate == old(self).fft_processor.sample_rate,
            final(self).fft_processor.configured == old(self).fft_processor.configured,
            final(self).fft_processor.spectrum@ == old(self).fft_processor.spectrum@,
            final(self).sample_rate == old(self).sample_rate,
            final(self).note_detector == old(self).note_detector,
            final(self).detected_notes@ == old(self).detected_notes@,
    {
        let n = samples.len();
        let mut i: usize = 0;
        proof {
            assert(samples@.skip(0) =~= samples@);
        }
        while i < n
            invariant
                i <= n,
                n == samples@.len(),
                self.wf(),
                spec_push_all(
                    old(self).fft_processor.buffer@,
                    old(self).fft_processor.buffer_position as int,
                    samples@,
                ) == spec_push_all(
                    self.fft_processor.buffer@,
                    self.fft_processor.buffer_position as int,
                    samples@.skip(i as int),
                ),
                self.fft_processor.fft_size == old(self).fft_processor.fft_size,
                self.fft_processor.sample_rate == old(self).fft_processor.sample_rate,
                self.fft_processor.configured == old(self).fft_processor.configured,
                self.fft_processor.spectrum@ == old(self).fft_processor.spectrum@,
                self.sample_rate == old(self).sample_rate,
                self.note_detector == old(self).note_detector,
                self.detected_notes@ == old(self).detected_notes@,
            decreases n - i,
        {
            let ghost pre = samples@.skip(i as int);
            self.fft_processor.process_sample(samples[i]);
            proof {
                assert(pre.drop_first() =~= samples@.skip(i + 1));
                assert(pre[0] == samples@[i as int]);
            }
            i = i + 1;
        }
        proof {
            assert(samples@.skip(n as int) =~= Seq::<u32>::empty());
        }
    }

    /// Whether the last pushed sample completed an analysis block; the
    /// host polls this after each chunk and, when true, transforms the
    /// chronological block and calls `handle_spectrum`.
    pub fn is_frame_complete(&self) -> (r: bool)
        ensures
            r == (self.fft_processor.buffer_position == 0),
    {
        self.fft_processor.is_frame_complete()
    }

    /// One block's worth of decisions, applied to the magnitudes the host
    /// transformed. In learning mode the spectrum becomes the template of
    /// `learning_note`, no event is emitted and the previous detected set
    /// is left untouched; in tracking mode the spectrum is classified, the
    /// events are the diff of the new note set against the previous one,
    /// and the new set is retained for the next block.
    pub fn handle_spectrum(
        &mut self,
        magnitudes: Vec<u32>,
        learning: bool,
        learning_note: u8,
        max_notes: usize,
        sensitivity: u64,
    ) -> (events: Vec<NoteEvent>)
        requires
            old(self).wf(),
            old(self).fft_processor.configured,
            learning_note <= 127,
            magnitudes@.len() == old(self).fft_processor.fft_size / 2,
            forall|i: int| 0 <= i < magnitudes@.len() ==> magnitudes@[i] <= MAG_MAX,
        ensures
            final(self).wf(),
            final(self).fft_processor.spectrum@ == magnitudes@,
            final(self).fft_processor.buffer@ == old(self).fft_processor.buffer@,
            final(self).fft_processor.buffer_position == old(self).fft_processor.buffer_position,
            final(self).fft_processor.fft_size == old(self).fft_processor.fft_size,
            final(self).fft_processor.configured,
            final(self).sample_rate == old(self).sample_rate,
            learning ==> {
                &&& events@ == Seq::<NoteEvent>::empty()
                &&& final(self).detected_notes@ == old(self).detected_notes@
                &&& final(self).note_detector.learned_notes.has_note(learning_note)
                &&& final(self).note_detector.learned_notes.template_of(learning_note)
                    == magnitudes@
                &&& forall|m: u8|
                    m != learning_note ==> (final(self).note_detector.learned_notes.has_note(m)
                        == old(self).note_detector.learned_notes.has_note(m))
                &&& forall|m: u8|
                    m != learning_note && old(self).note_detector.learned_notes.has_note(m)
                        ==> final(self).note_detector.learned_notes.template_of(m) == old(
                        self,
                    ).note_detector.learned_notes.template_of(m)
            },
            !learning ==> {
                &&& final(self).note_detector == old(self).note_detector
                &&& final(self).detected_notes@ == spec_detect_notes(
                    old(self).note_detector.learned_notes.entries@,
                    magnitudes@,
                    max_notes as nat,
                    sensitivity,
                )
                &&& events@ == spec_output_events(
                    final(self).detected_notes@,
                    old(self).detected_notes@,
                )
            },
    {
        proof {
            assert(bounded_spectrum(magnitudes@));
        }
        if learning {
            self.fft_processor.store_spectrum(magnitudes.clone());
            crate::learning::learn_note(&mut self.note_detector, learning_note, &magnitudes);
            Vec::new()
        } else {
            self.fft_processor.store_spectrum(magnitudes.clone());
            let current = self.note_detector.detect_notes(&magnitudes, max_notes, sensitivity);
            let events = output_midi_notes(&current, &self.detected_notes);
            self.detected_notes = current;
            events
        }
    }
}

impl Default for GuitarMidiTracker {
    /// A freshly constructed core: default block length and rate, no
    /// transform configured yet, empty template store, nothing detected.
    fn default() -> (r: Self)
        ensures
            r.wf(),
            r.sample_rate == 44100,
            r.fft_processor.fft_size == DEFAULT_FFT_SIZE,
            !r.fft_processor.configured,
            r.fft_processor.buffer_position == 0,
            r.note_detector.learned_notes.entries@.len() == 0,
            r.detected_notes@ == Seq::<u8>::empty(),
    {
        GuitarMidiTracker {
            sample_rate: 44100,
            fft_processor: FFTProcessor::new(DEFAULT_FFT_SIZE),
            note_detector: NoteDetector::new(),
            detected_notes: Vec::new(),
        }
    }
}

} // verus!
