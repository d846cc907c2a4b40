//! Learning mode: capturing a reference spectrum for the selected note.

use vstd::prelude::*;
use crate::note_detection::NoteDetector;
use crate::similarity::bounded_spectrum;

verus! {

/// Captures `spectrum` as the reference template for `note`, overwriting
/// any earlier capture for that note (how a user corrects a bad one) and
/// touching no other note's template.
pub fn learn_note(note_detector: &mut NoteDetector, note: u8, spectrum: &Vec<u32>)
    requires
        old(note_detector).wf(),
        note <= 127,
        bounded_spectrum(spectrum@),
    ensures
        final(note_detector).wf(),
        final(note_detector).sample_rate == old(note_detector).sample_rate,
        final(note_detector).learned_notes.has_note(note),
        final(note_detector).learned_notes.template_of(note) == spectrum@,
        forall|m: u8|
            m != note ==> (final(note_detector).learned_notes.has_note(m) == old(
                note_detector,
            ).learned_notes.has_note(m)),
        forall|m: u8|
            m != note && old(note_detector).learned_notes.has_note(m)
                ==> final(note_detector).learned_notes.template_of(m) == old(
                note_detector,
            ).learned_notes.template_of(m),
{
    note_detector.add_learned_note(note, spectrum.clone());
}

} // verus!
