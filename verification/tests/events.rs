use guitar_midi_tracker::midi_output::{output_midi_notes, NoteEvent, NOTE_ON_VELOCITY};
use guitar_midi_tracker::utils::midi_note_to_name;
use guitar_midi_tracker::GuitarMidiTracker;

#[test]
fn diff_emits_one_off_then_one_on_and_nothing_for_sustained() {
    // current = {60, 64}, previous = {64, 67}: exactly NoteOff(67) then
    // NoteOn(60), and no event for the sustained 64
    let current = vec![60u8, 64];
    let previous = vec![64u8, 67];
    let events = output_midi_notes(&current, &previous);
    assert_eq!(
        events,
        vec![
            NoteEvent::NoteOff { note: 67, velocity: 0 },
            NoteEvent::NoteOn { note: 60, velocity: NOTE_ON_VELOCITY },
        ]
    );
}

#[test]
fn diff_of_equal_sets_is_empty() {
    let notes = vec![60u8, 64, 67];
    assert_eq!(output_midi_notes(&notes, &notes), Vec::<NoteEvent>::new());
}

#[test]
fn all_offs_precede_all_ons() {
    let current = vec![1u8, 2];
    let previous = vec![10u8, 11];
    let events = output_midi_notes(&current, &previous);
    assert_eq!(
        events,
        vec![
            NoteEvent::NoteOff { note: 10, velocity: 0 },
            NoteEvent::NoteOff { note: 11, velocity: 0 },
            NoteEvent::NoteOn { note: 1, velocity: NOTE_ON_VELOCITY },
            NoteEvent::NoteOn { note: 2, velocity: NOTE_ON_VELOCITY },
        ]
    );
}

#[test]
fn note_on_velocity_is_the_documented_default() {
    assert_eq!(NOTE_ON_VELOCITY, 800_000);
}

fn zero_spectrum_with(len: usize, pairs: &[(usize, u32)]) -> Vec<u32> {
    let mut s = vec![0u32; len];
    for &(i, v) in pairs {
        s[i] = v;
    }
    s
}

#[test]
fn tracker_learns_then_tracks_and_diffs_across_blocks() {
    let mut t = GuitarMidiTracker::default();
    t.initialize(44100);
    let mag_60 = zero_spectrum_with(2048, &[(10, 1000)]);
    let mag_64 = zero_spectrum_with(2048, &[(20, 1000)]);

    // learning mode: no events, previous detected set untouched
    let events = t.handle_spectrum(mag_60.clone(), true, 60, 6, 500_000);
    assert_eq!(events, Vec::<NoteEvent>::new());
    let events = t.handle_spectrum(mag_64.clone(), true, 64, 6, 500_000);
    assert_eq!(events, Vec::<NoteEvent>::new());
    assert_eq!(t.detected_notes, Vec::<u8>::new());

    // tracking: note 60 appears
    let events = t.handle_spectrum(mag_60.clone(), false, 60, 6, 500_000);
    assert_eq!(
        events,
        vec![NoteEvent::NoteOn { note: 60, velocity: NOTE_ON_VELOCITY }]
    );
    assert_eq!(t.detected_notes, vec![60]);

    // same spectrum again: sustained, no events
    let events = t.handle_spectrum(mag_60.clone(), false, 60, 6, 500_000);
    assert_eq!(events, Vec::<NoteEvent>::new());

    // the other note takes over: off for 60, on for 64
    let events = t.handle_spectrum(mag_64, false, 60, 6, 500_000);
    assert_eq!(
        events,
        vec![
            NoteEvent::NoteOff { note: 60, velocity: 0 },
            NoteEvent::NoteOn { note: 64, velocity: NOTE_ON_VELOCITY },
        ]
    );
    assert_eq!(t.detected_notes, vec![64]);

    // learning a block leaves the previous detected set alone
    let events = t.handle_spectrum(mag_60, true, 72, 6, 500_000);
    assert_eq!(events, Vec::<NoteEvent>::new());
    assert_eq!(t.detected_notes, vec![64]);
}

#[test]
fn midi_note_names_follow_convention() {
    assert_eq!(midi_note_to_name(60), "C4");
    assert_eq!(midi_note_to_name(61), "C#4");
    assert_eq!(midi_note_to_name(69), "A4");
    assert_eq!(midi_note_to_name(0), "C-1");
    assert_eq!(midi_note_to_name(11), "B-1");
    assert_eq!(midi_note_to_name(127), "G9");
    assert_eq!(midi_note_to_name(40), "E2");
}
