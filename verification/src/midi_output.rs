//! Edge-triggered event emission: diffing the newly detected note set
//! against the previous block's set yields note-off events for notes that
//! vanished, then note-on events for notes that appeared. Notes present in
//! both sets sustain and produce no event. Offs come before ons so a note
//! never briefly exists twice at the receiving synthesizer.

use vstd::prelude::*;

verus! {

/// Fixed note-on velocity, in millionths of full scale (0.8 of full
/// scale — a documented default, no dynamics modeling).
pub const NOTE_ON_VELOCITY: u32 = 800_000;

/// A MIDI-equivalent event handed to the host's event transport.
#[derive(Clone, Copy, Debug, PartialEq, Eq, Structural)]
pub enum NoteEvent {
    /// A note started sounding; velocity in millionths of full scale.
    NoteOn { note: u8, velocity: u32 },
    /// A note stopped sounding.
    NoteOff { note: u8, velocity: u32 },
}

/// Note-off events for every note of `previous` absent from `current`, in
/// `previous` order.
pub open spec fn spec_note_offs(current: Seq<u8>, previous: Seq<u8>) -> Seq<NoteEvent>
    decreases previous.len(),
{
    if previous.len() == 0 {
        Seq::empty()
    } else {
        let rest = spec_note_offs(current, previous.drop_last());
        if !current.contains(previous.last()) {
            rest.push(NoteEvent::NoteOff { note: previous.last(), velocity: 0 })
        } else {
            rest
        }
    }
}

/// Note-on events for every note of `current` absent from `previous`, in
/// `current` order, at the fixed velocity.
pub open spec fn spec_note_ons(current: Seq<u8>, previous: Seq<u8>) -> Seq<NoteEvent>
    decreases current.len(),
{
    if current.len() == 0 {
        Seq::empty()
    } else {
        let rest = spec_note_ons(current.drop_last(), previous);
        if !previous.contains(current.last()) {
            rest.push(NoteEvent::NoteOn { note: current.last(), velocity: NOTE_ON_VELOCITY })
        } else {
            rest
        }
    }
}

/// The full event sequence for one block: all offs, then all ons.
pub open spec fn spec_output_events(current: Seq<u8>, previous: Seq<u8>) -> Seq<NoteEvent> {
    spec_note_offs(current, previous) + spec_note_ons(current, previous)
}

/// Whether a note vector contains `note`.
fn vec_contains_note(v: &Vec<u8>, note: u8) -> (r: bool)
    ensures
        r == v@.contains(note),
{
    let n = v.len();
    let mut i: usize = 0;
    while i < n
        invariant
            i <= n,
            n == v@.len(),
            forall|j: int| 0 <= j < i ==> v@[j] != note,
        decreases n - i,
    {
        if v[i] == note {
            return true;
        }
        i = i + 1;
    }
    false
}

/// Computes the events for one block: `NoteOff` for each note of
/// `previous_notes` missing from `current_notes` (in `previous_notes`
/// order), followed by `NoteOn` at the fixed velocity for each note of
/// `current_notes` missing from `previous_notes` (in `current_notes`
/// order); sustained notes produce nothing. Pure: neither set is mutated,
/// and the caller retains `current_notes` as the next block's previous
/// set.
pub fn output_midi_notes(current_notes: &Vec<u8>, previous_notes: &Vec<u8>) -> (r: Vec<NoteEvent>)
    ensures
        r@ == spec_output_events(current_notes@, previous_notes@),
{
    let mut events: Vec<NoteEvent> = Vec::new();
    let np = previous_notes.len();
    let mut i: usize = 0;
    while i < np
        invariant
            i <= np,
            np == previous_notes@.len(),
            events@ == spec_note_offs(current_notes@, previous_notes@.take(i as int)),
        decreases np - i,
    {
        let note = previous_notes[i];
        if !vec_contains_note(current_notes, note) {
            events.push(NoteEvent::NoteOff { note, velocity: 0 });
        }
        proof {
            let pre = previous_notes@.take(i as int);
            let post = previous_notes@.take(i + 1);
            assert(post.drop_last() =~= pre);
            assert(post.last() == previous_notes@[i as int]);
            if !current_notes@.contains(previous_notes@[i as int]) {
                assert(events@ =~= spec_note_offs(current_notes@, post));
            }
        }
        i = i + 1;
    }
    proof {
        assert(previous_notes@.take(np as int) =~= previous_notes@);
    }
    let ghost offs = spec_note_offs(current_notes@, previous_notes@);
    let nc = current_notes.len();
    let mut k: usize = 0;
    while k < nc
        invariant
            k <= nc,
            nc == current_notes@.len(),
            offs == spec_note_offs(current_notes@, previous_notes@),
            events@ == offs + spec_note_ons(current_notes@.take(k as int), previous_notes@),
        decreases nc - k,
    {
        let note = current_notes[k];
        if !vec_contains_note(previous_notes, note) {
            events.push(NoteEvent::NoteOn { note, velocity: NOTE_ON_VELOCITY });
        }
        proof {
            let pre = current_notes@.take(k as int);
            let post = current_notes@.take(k + 1);
            assert(post.drop_last() =~= pre);
            assert(post.last() == current_notes@[k as int]);
            if !previous_notes@.contains(current_notes@[k as int]) {
                assert(events@ =~= offs + spec_note_ons(post, previous_notes@));
            }
        }
        k = k + 1;
    }
    proof {
        assert(current_notes@.take(nc as int) =~= current_notes@);
    }
    events
}

} // verus!
